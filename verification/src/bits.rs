use vstd::prelude::*;

verus! {

/// Two to the `n`.
pub open spec fn pow2n(n: nat) -> nat
    decreases n,
{
    if n == 0 {
        1
    } else {
        2 * pow2n((n - 1) as nat)
    }
}

/// The low `w` bits of `v`, most significant first.
pub open spec fn bits_of(v: nat, w: nat) -> Seq<bool>
    decreases w,
{
    if w == 0 {
        Seq::empty()
    } else {
        bits_of(v / 2, (w - 1) as nat).push(v % 2 == 1)
    }
}

pub proof fn lemma_bits_of_len(v: nat, w: nat)
    ensures
        bits_of(v, w).len() == w,
    decreases w,
{
    if w > 0 {
        lemma_bits_of_len(v / 2, (w - 1) as nat);
    }
}

/// The variable-width encoding of a natural number: seven-bit groups,
/// least significant group first, the high bit of each byte marking that
/// more groups follow.
pub open spec fn nat_bits(n: nat) -> Seq<bool>
    decreases n,
{
    if n < 128 {
        bits_of(n, 8)
    } else {
        bits_of(128 + n % 128, 8) + nat_bits(n / 128)
    }
}

/// The padding from a bit position to the next byte boundary: zero or
/// more `0` bits and a final `1` bit, at most one byte in all.
pub open spec fn pad_bits(pos: nat) -> Seq<bool> {
    Seq::new((7 - pos % 8) as nat, |i: int| false).push(true)
}

/// The bits of a byte sequence, each byte most significant bit first.
pub open spec fn bytes_bits(s: Seq<u8>) -> Seq<bool>
    decreases s.len(),
{
    if s.len() == 0 {
        Seq::empty()
    } else {
        bytes_bits(s.drop_last()) + bits_of(s.last() as nat, 8)
    }
}

pub proof fn lemma_bytes_bits_len(s: Seq<u8>)
    ensures
        bytes_bits(s).len() == 8 * s.len(),
    decreases s.len(),
{
    if s.len() > 0 {
        lemma_bytes_bits_len(s.drop_last());
        lemma_bits_of_len(s.last() as nat, 8);
    }
}

/// The chunked encoding of a byte string: chunks of at most 255 bytes,
/// each preceded by its one-byte length, ended by a zero length byte.
pub open spec fn chunks_bits(s: Seq<u8>) -> Seq<bool>
    decreases s.len(),
{
    if s.len() == 0 {
        bits_of(0, 8)
    } else if s.len() <= 255 {
        bits_of(s.len() as nat, 8) + bytes_bits(s) + bits_of(0, 8)
    } else {
        bits_of(255, 8) + bytes_bits(s.take(255)) + chunks_bits(s.skip(255))
    }
}

/// The zig-zag map folding the sign into the least significant bit.
pub open spec fn zigzag(i: int) -> nat {
    if i >= 0 {
        (2 * i) as nat
    } else {
        (-2 * i - 1) as nat
    }
}

pub proof fn lemma_pow2n_mono(a: nat, b: nat)
    requires
        a <= b,
    ensures
        pow2n(a) <= pow2n(b),
    decreases b,
{
    if a < b {
        lemma_pow2n_mono(a, (b - 1) as nat);
    }
}

/// Whether the bits of `s` stand at position `pos` of `all`.
pub open spec fn prefix_at(all: Seq<bool>, pos: nat, s: Seq<bool>) -> bool {
    pos + s.len() <= all.len() && all.subrange(pos as int, (pos + s.len()) as int) == s
}

/// A concatenation stands at a position exactly when its parts stand
/// there one after the other.
pub proof fn lemma_prefix_split(all: Seq<bool>, pos: nat, s1: Seq<bool>, s2: Seq<bool>)
    ensures
        prefix_at(all, pos, s1 + s2) <==> (prefix_at(all, pos, s1) && prefix_at(
            all,
            pos + s1.len(),
            s2,
        )),
{
    if prefix_at(all, pos, s1 + s2) {
        let w = all.subrange(pos as int, (pos + (s1 + s2).len()) as int);
        assert forall|j: int| 0 <= j < s1.len() implies all.subrange(
            pos as int,
            (pos + s1.len()) as int,
        )[j] == s1[j] by {
            assert(w[j] == (s1 + s2)[j]);
        }
        assert(all.subrange(pos as int, (pos + s1.len()) as int) =~= s1);
        assert forall|j: int| 0 <= j < s2.len() implies all.subrange(
            (pos + s1.len()) as int,
            (pos + s1.len() + s2.len()) as int,
        )[j] == s2[j] by {
            assert(w[s1.len() + j] == (s1 + s2)[s1.len() + j]);
        }
        assert(all.subrange((pos + s1.len()) as int, (pos + s1.len() + s2.len()) as int) =~= s2);
    }
    if prefix_at(all, pos, s1) && prefix_at(all, pos + s1.len(), s2) {
        assert(all.subrange(pos as int, (pos + (s1 + s2).len()) as int) =~= s1 + s2);
    }
}

/// A single bit stands at a position exactly when that position holds
/// it.
pub proof fn lemma_prefix_one(all: Seq<bool>, pos: nat, b: bool)
    ensures
        prefix_at(all, pos, seq![b]) <==> (pos < all.len() && all[pos as int] == b),
{
    if pos < all.len() && all[pos as int] == b {
        assert(all.subrange(pos as int, pos as int + 1) =~= seq![b]);
    }
    if prefix_at(all, pos, seq![b]) {
        assert(all[pos as int] == all.subrange(pos as int, pos as int + 1)[0]);
    }
}

/// Two values with the same bits under the same width are the same
/// value.
pub proof fn lemma_bits_of_inj(a: nat, b: nat, w: nat)
    requires
        a < pow2n(w),
        b < pow2n(w),
        bits_of(a, w) == bits_of(b, w),
    ensures
        a == b,
    decreases w,
{
    if w == 0 {
    } else {
        lemma_bits_of_len(a / 2, (w - 1) as nat);
        lemma_bits_of_len(b / 2, (w - 1) as nat);
        assert(bits_of(a, w).last() == (a % 2 == 1));
        assert(bits_of(a, w).drop_last() =~= bits_of(a / 2, (w - 1) as nat));
        assert(bits_of(b, w).drop_last() =~= bits_of(b / 2, (w - 1) as nat));
        lemma_bits_of_inj(a / 2, b / 2, (w - 1) as nat);
    }
}

/// Two byte sequences with the same bits are the same sequence.
pub proof fn lemma_bytes_bits_injective(s1: Seq<u8>, s2: Seq<u8>)
    requires
        bytes_bits(s1) == bytes_bits(s2),
    ensures
        s1 == s2,
    decreases s1.len(),
{
    lemma_bytes_bits_len(s1);
    lemma_bytes_bits_len(s2);
    if s1.len() == 0 {
        assert(s1 =~= s2);
    } else {
        lemma_bytes_bits_len(s1.drop_last());
        lemma_bytes_bits_len(s2.drop_last());
        lemma_bits_of_len(s1.last() as nat, 8);
        lemma_bits_of_len(s2.last() as nat, 8);
        assert(s1.len() == s2.len());
        let p1 = bytes_bits(s1.drop_last());
        let p2 = bytes_bits(s2.drop_last());
        let l1 = bits_of(s1.last() as nat, 8);
        let l2 = bits_of(s2.last() as nat, 8);
        assert(bytes_bits(s1) == p1 + l1);
        assert(bytes_bits(s2) == p2 + l2);
        assert forall|j: int| 0 <= j < p1.len() implies p1[j] == p2[j] by {
            assert((p1 + l1)[j] == p1[j]);
            assert((p2 + l2)[j] == p2[j]);
        }
        assert(p1 =~= p2);
        lemma_bytes_bits_injective(s1.drop_last(), s2.drop_last());
        assert forall|j: int| 0 <= j < 8 implies l1[j] == l2[j] by {
            assert((p1 + l1)[p1.len() + j] == l1[j]);
            assert((p2 + l2)[p2.len() + j] == l2[j]);
        }
        assert(l1 =~= l2);
        lemma_pow2n_values();
        lemma_bits_of_inj(s1.last() as nat, s2.last() as nat, 8);
        assert forall|j: int| 0 <= j < s1.len() implies s1[j] == s2[j] by {
            if j < s1.len() - 1 {
                assert(s1.drop_last()[j] == s2.drop_last()[j]);
            }
        }
        assert(s1 =~= s2);
    }
}

/// The zig-zag map is one to one.
pub proof fn lemma_zigzag_inj(a: int, b: int)
    requires
        zigzag(a) == zigzag(b),
    ensures
        a == b,
{
}

pub proof fn lemma_pow2n_values()
    ensures
        pow2n(0) == 1,
        pow2n(1) == 2,
        pow2n(2) == 4,
        pow2n(3) == 8,
        pow2n(4) == 16,
        pow2n(5) == 32,
        pow2n(6) == 64,
        pow2n(7) == 128,
        pow2n(8) == 256,
{
    reveal_with_fuel(pow2n, 9);
}

} // verus!
