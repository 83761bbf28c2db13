use vstd::prelude::*;

use crate::ast::{Constant, ConstantS, NamedDeBruijn, NamedDeBruijnS, Program, ProgramS, Term, TermS};
use crate::bits::{
    bits_of, bytes_bits, chunks_bits, lemma_bits_of_inj, lemma_bits_of_len,
    lemma_bytes_bits_injective, lemma_bytes_bits_len, lemma_prefix_one, lemma_prefix_split,
    lemma_zigzag_inj, nat_bits, pad_bits, pow2n, prefix_at, zigzag,
};
use crate::builtins::{builtin_tag, DefaultFunction};
use crate::decode::Decoder;
use crate::encode::Encoder;

verus! {

pub const BUILTIN_TAG_WIDTH: u32 = 7;

pub const CONST_TAG_WIDTH: u32 = 4;

pub const TERM_TAG_WIDTH: u32 = 4;

/// The terminal failures of the codec.
#[derive(Clone, Copy, Debug, PartialEq, Eq, Structural)]
pub enum FlatError {
    /// A value does not fit the declared bit width, on either side.
    BitOverflow,
    UnknownTermTag(u8),
    UnknownConstantTag(u8),
    UnknownBuiltin(u8),
    MalformedConstantTagList,
    EndOfStream,
    InvalidUtf8,
    /// The character constant has no tag in the wire format.
    CharConstant,
    /// Input left over after the end marker.
    TrailingGarbage,
}

/// The UTF-8 bytes of a character sequence, as `str::as_bytes` computes
/// them.
pub uninterp spec fn utf8_of(s: Seq<char>) -> Seq<u8>;

/// Relies on str::as_bytes: the UTF-8 bytes of the string, a function of
/// its characters alone.
#[verifier::external_body]
fn utf8_bytes(s: &String) -> (r: Vec<u8>)
    ensures
        r@ == utf8_of(s@),
{
    s.as_bytes().to_vec()
}

/// Relies on String::from_utf8: it succeeds exactly on the UTF-8
/// encoding of some character sequence and returns that sequence, which
/// is unique because UTF-8 decoding is unambiguous.
#[verifier::external_body]
fn utf8_string(b: Vec<u8>) -> (r: Option<String>)
    ensures
        r is Some ==> utf8_of(r->0@) == b@,
        forall|s: Seq<char>| utf8_of(s) == b@ ==> r is Some && r->0@ == s,
{
    String::from_utf8(b).ok()
}

/// A hexadecimal digit, lower case.
pub open spec fn hex_digit(n: nat) -> char {
    if n == 0 {
        '0'
    } else if n == 1 {
        '1'
    } else if n == 2 {
        '2'
    } else if n == 3 {
        '3'
    } else if n == 4 {
        '4'
    } else if n == 5 {
        '5'
    } else if n == 6 {
        '6'
    } else if n == 7 {
        '7'
    } else if n == 8 {
        '8'
    } else if n == 9 {
        '9'
    } else if n == 10 {
        'a'
    } else if n == 11 {
        'b'
    } else if n == 12 {
        'c'
    } else if n == 13 {
        'd'
    } else if n == 14 {
        'e'
    } else {
        'f'
    }
}

/// The lower-case hexadecimal rendering of a byte sequence: two digits
/// for each byte, high nibble first.
pub open spec fn hex_of(b: Seq<u8>) -> Seq<char> {
    Seq::new(
        2 * b.len(),
        |i: int|
            if i % 2 == 0 {
                hex_digit((b[i / 2] as nat) / 16)
            } else {
                hex_digit((b[i / 2] as nat) % 16)
            },
    )
}

/// Relies on hex::encode: one pair of lower-case digits per byte, high
/// nibble first.
#[verifier::external_body]
fn hex_encode(b: &Vec<u8>) -> (r: String)
    ensures
        r@ == hex_of(b@),
{
    hex::encode(b.as_slice())
}

/// The four-bit wire tag of a term constructor.
pub open spec fn term_tag(t: TermS) -> u8 {
    match t {
        TermS::Var(_) => 0,
        TermS::Delay(_) => 1,
        TermS::Lambda { parameter_name, body } => 2,
        TermS::Apply { function, argument } => 3,
        TermS::Constant(_) => 4,
        TermS::Force(_) => 5,
        TermS::Error => 6,
        TermS::Builtin(_) => 7,
    }
}

/// The four-bit wire tag of a constant; the character constant has none
/// and never reaches the wire.
pub open spec fn const_tag(c: ConstantS) -> u8 {
    match c {
        ConstantS::Integer(_) => 0,
        ConstantS::ByteString(_) => 1,
        ConstantS::Str(_) => 2,
        ConstantS::Unit => 3,
        ConstantS::Bool(_) => 4,
        ConstantS::Char(_) => 15,
    }
}

/// Whether a constant has a wire form.
pub open spec fn const_wire_ok(c: ConstantS) -> bool {
    !(c is Char)
}

/// Whether a term has a wire form: no character constant anywhere.
pub open spec fn wire_ok(t: TermS) -> bool
    decreases t,
{
    match t {
        TermS::Constant(c) => const_wire_ok(c),
        TermS::Delay(b) => wire_ok(*b),
        TermS::Lambda { parameter_name, body } => wire_ok(*body),
        TermS::Apply { function, argument } => wire_ok(*function) && wire_ok(*argument),
        TermS::Force(b) => wire_ok(*b),
        _ => true,
    }
}

/// Whether a constant's numbers fit the machine word, as every constant
/// held in memory does.
pub open spec fn const_fits(c: ConstantS) -> bool {
    match c {
        ConstantS::Integer(i) => zigzag(i) <= usize::MAX,
        _ => true,
    }
}

/// Whether a term's numbers fit the machine word, as every term held in
/// memory does.
pub open spec fn term_fits(t: TermS) -> bool
    decreases t,
{
    match t {
        TermS::Var(n) => n.index <= usize::MAX,
        TermS::Delay(b) => term_fits(*b),
        TermS::Lambda { parameter_name, body } => term_fits(*body),
        TermS::Apply { function, argument } => term_fits(*function) && term_fits(*argument),
        TermS::Constant(c) => const_fits(c),
        TermS::Force(b) => term_fits(*b),
        TermS::Error => true,
        TermS::Builtin(_) => true,
    }
}

/// Whether a program's numbers fit the machine word.
pub open spec fn program_fits(p: ProgramS) -> bool {
    p.major <= usize::MAX && p.minor <= usize::MAX && p.patch <= usize::MAX && term_fits(p.term)
}

/// A term with its display names cleared: what decoding the wire form
/// reconstructs, since names carry no bits.
pub open spec fn strip_names(t: TermS) -> TermS
    decreases t,
{
    match t {
        TermS::Var(n) => TermS::Var(NamedDeBruijnS { text: Seq::empty(), index: n.index }),
        TermS::Delay(b) => TermS::Delay(Box::new(strip_names(*b))),
        TermS::Lambda { parameter_name, body } => TermS::Lambda {
            parameter_name: NamedDeBruijnS { text: Seq::empty(), index: 0 },
            body: Box::new(strip_names(*body)),
        },
        TermS::Apply { function, argument } => TermS::Apply {
            function: Box::new(strip_names(*function)),
            argument: Box::new(strip_names(*argument)),
        },
        TermS::Constant(c) => TermS::Constant(c),
        TermS::Force(b) => TermS::Force(Box::new(strip_names(*b))),
        TermS::Error => TermS::Error,
        TermS::Builtin(f) => TermS::Builtin(f),
    }
}

/// Names carry no bits: a term and its stripped form have the same wire
/// form, and stripping keeps well-formedness.
pub proof fn lemma_strip_names_bits(t: TermS, pos: nat)
    ensures
        term_bits(strip_names(t), pos) == term_bits(t, pos),
        wire_ok(strip_names(t)) == wire_ok(t),
    decreases t,
{
    match t {
        TermS::Delay(b) => {
            lemma_strip_names_bits(*b, pos + 4);
        },
        TermS::Lambda { parameter_name, body } => {
            lemma_strip_names_bits(*body, pos + 4);
        },
        TermS::Apply { function, argument } => {
            lemma_strip_names_bits(*function, pos + 4);
            lemma_strip_names_bits(*argument, pos + 4 + term_bits(*function, pos + 4).len());
        },
        TermS::Force(b) => {
            lemma_strip_names_bits(*b, pos + 4);
        },
        _ => {},
    }
}

/// The wire bits of a constant, starting at bit position `pos`: the
/// one-item tag list, then the payload.
pub open spec fn const_bits(c: ConstantS, pos: nat) -> Seq<bool> {
    let lst = seq![true] + bits_of(const_tag(c) as nat, 4) + seq![false];
    lst + match c {
        ConstantS::Integer(i) => nat_bits(zigzag(i)),
        ConstantS::ByteString(b) => pad_bits(pos + 6) + chunks_bits(b),
        ConstantS::Str(s) => pad_bits(pos + 6) + chunks_bits(utf8_of(s)),
        ConstantS::Unit => Seq::empty(),
        ConstantS::Bool(v) => seq![v],
        ConstantS::Char(_) => Seq::empty(),
    }
}

/// The payload of a term's wire form, after its four-bit tag, for a
/// term starting at bit position `pos`.
pub open spec fn term_payload(t: TermS, pos: nat) -> Seq<bool> {
    match t {
        TermS::Var(n) => nat_bits(n.index),
        TermS::Delay(b) => term_bits(*b, pos + 4),
        TermS::Lambda { parameter_name, body } => term_bits(*body, pos + 4),
        TermS::Apply { function, argument } => term_bits(*function, pos + 4) + term_bits(
            *argument,
            pos + 4 + term_bits(*function, pos + 4).len(),
        ),
        TermS::Constant(c) => const_bits(c, pos + 4),
        TermS::Force(b) => term_bits(*b, pos + 4),
        TermS::Error => Seq::empty(),
        TermS::Builtin(f) => bits_of(builtin_tag(f) as nat, 7),
    }
}

/// A term's wire form is its tag and then its payload.
pub proof fn lemma_term_bits_shape(t: TermS, pos: nat)
    ensures
        term_bits(t, pos) == bits_of(term_tag(t) as nat, 4) + term_payload(t, pos),
        term_tag(t) < 8,
{
    if t is Error {
        assert(term_bits(t, pos) =~= bits_of(term_tag(t) as nat, 4) + term_payload(t, pos));
    }
}

/// The one-item tag list leading a constant's wire form.
pub open spec fn const_list(c: ConstantS) -> Seq<bool> {
    seq![true] + bits_of(const_tag(c) as nat, 4) + seq![false]
}

/// The payload of a constant's wire form, after its tag list.
pub open spec fn const_payload(c: ConstantS, pos: nat) -> Seq<bool> {
    match c {
        ConstantS::Integer(i) => nat_bits(zigzag(i)),
        ConstantS::ByteString(b) => pad_bits(pos + 6) + chunks_bits(b),
        ConstantS::Str(s) => pad_bits(pos + 6) + chunks_bits(utf8_of(s)),
        ConstantS::Unit => Seq::empty(),
        ConstantS::Bool(v) => seq![v],
        ConstantS::Char(_) => Seq::empty(),
    }
}

/// A constant's wire form is its tag list and then its payload.
pub proof fn lemma_const_bits_shape(c: ConstantS, pos: nat)
    ensures
        const_bits(c, pos) == const_list(c) + const_payload(c, pos),
        const_list(c).len() == 6,
{
    lemma_bits_of_len(const_tag(c) as nat, 4);
}

/// The wire bits of a term, starting at bit position `pos`: a four-bit
/// tag, then the payload.
pub open spec fn term_bits(t: TermS, pos: nat) -> Seq<bool>
    decreases t,
{
    let tag = bits_of(term_tag(t) as nat, 4);
    match t {
        TermS::Var(n) => tag + nat_bits(n.index),
        TermS::Delay(b) => tag + term_bits(*b, pos + 4),
        TermS::Lambda { parameter_name, body } => tag + term_bits(*body, pos + 4),
        TermS::Apply { function, argument } => {
            let fb = term_bits(*function, pos + 4);
            tag + fb + term_bits(*argument, pos + 4 + fb.len())
        },
        TermS::Constant(c) => tag + const_bits(c, pos + 4),
        TermS::Force(b) => tag + term_bits(*b, pos + 4),
        TermS::Error => tag,
        TermS::Builtin(f) => tag + bits_of(builtin_tag(f) as nat, 7),
    }
}

/// The wire bits of a whole program: the three version numbers, the
/// term, and the end marker pad.
pub open spec fn program_bits(p: ProgramS) -> Seq<bool> {
    let v = nat_bits(p.major) + nat_bits(p.minor) + nat_bits(p.patch);
    let body = v + term_bits(p.term, v.len());
    body + pad_bits(body.len())
}

/// Appends `byte` in `num_bits` bits, and fails, leaving the buffer as
/// it was, exactly when the value does not fit the width.
pub fn safe_encode_bits(num_bits: u32, byte: u8, e: &mut Encoder) -> (r: Result<(), FlatError>)
    requires
        old(e).wf(),
        num_bits <= 8,
    ensures
        final(e).wf(),
        r is Ok <==> (byte as nat) < pow2n(num_bits as nat),
        r is Ok ==> final(e)@ == old(e)@ + bits_of(byte as nat, num_bits as nat),
        r is Err ==> *final(e) == *old(e) && r == Err::<(), FlatError>(FlatError::BitOverflow),
{
    proof {
        crate::bits::lemma_pow2n_values();
    }
    let limit: u16 = match num_bits {
        0 => 1,
        1 => 2,
        2 => 4,
        3 => 8,
        4 => 16,
        5 => 32,
        6 => 64,
        7 => 128,
        _ => 256,
    };
    if (byte as u16) >= limit {
        Err(FlatError::BitOverflow)
    } else {
        e.bits8(num_bits as usize, byte);
        Ok(())
    }
}

/// Appends a four-bit term tag.
pub fn encode_term_tag(tag: u8, e: &mut Encoder) -> (r: Result<(), FlatError>)
    requires
        old(e).wf(),
    ensures
        final(e).wf(),
        r is Ok <==> tag < 16,
        r is Ok ==> final(e)@ == old(e)@ + bits_of(tag as nat, 4),
        r is Err ==> *final(e) == *old(e) && r == Err::<(), FlatError>(FlatError::BitOverflow),
{
    proof {
        crate::bits::lemma_pow2n_values();
    }
    safe_encode_bits(TERM_TAG_WIDTH, tag, e)
}

/// Reads a four-bit term tag.
pub fn decode_term_tag(d: &mut Decoder) -> (r: Result<u8, FlatError>)
    requires
        old(d).wf(),
    ensures
        final(d).wf(),
        final(d).bytes@ == old(d).bytes@,
        r is Ok <==> old(d).pos + 4 <= old(d).all().len(),
        r is Ok ==> final(d).pos == old(d).pos + 4 && r->Ok_0 < 16 && bits_of(
            r->Ok_0 as nat,
            4,
        ) == old(d).all().subrange(old(d).pos as int, old(d).pos + 4),
        r is Err ==> final(d).pos >= old(d).pos && r == Err::<u8, FlatError>(
            FlatError::EndOfStream,
        ),
{
    proof {
        crate::bits::lemma_pow2n_values();
    }
    d.bits8(TERM_TAG_WIDTH as usize)
}

/// Appends a four-bit constant tag.
pub fn encode_constant_tag(tag: u8, e: &mut Encoder) -> (r: Result<(), FlatError>)
    requires
        old(e).wf(),
    ensures
        final(e).wf(),
        r is Ok <==> tag < 16,
        r is Ok ==> final(e)@ == old(e)@ + bits_of(tag as nat, 4),
        r is Err ==> *final(e) == *old(e) && r == Err::<(), FlatError>(FlatError::BitOverflow),
{
    proof {
        crate::bits::lemma_pow2n_values();
    }
    safe_encode_bits(CONST_TAG_WIDTH, tag, e)
}

/// Reads a four-bit constant tag.
pub fn decode_constant_tag(d: &mut Decoder) -> (r: Result<u8, FlatError>)
    requires
        old(d).wf(),
    ensures
        final(d).wf(),
        final(d).bytes@ == old(d).bytes@,
        r is Ok <==> old(d).pos + 4 <= old(d).all().len(),
        r is Ok ==> final(d).pos == old(d).pos + 4 && r->Ok_0 < 16 && bits_of(
            r->Ok_0 as nat,
            4,
        ) == old(d).all().subrange(old(d).pos as int, old(d).pos + 4),
        r is Err ==> final(d).pos >= old(d).pos && r == Err::<u8, FlatError>(
            FlatError::EndOfStream,
        ),
{
    proof {
        crate::bits::lemma_pow2n_values();
    }
    d.bits8(CONST_TAG_WIDTH as usize)
}

/// Appends the one-item constant-tag list: a continuation bit, the tag,
/// and the closing bit.
pub fn encode_constant(tag: u8, e: &mut Encoder) -> (r: Result<(), FlatError>)
    requires
        old(e).wf(),
    ensures
        final(e).wf(),
        r is Ok <==> tag < 16,
        r is Ok ==> final(e)@ == old(e)@ + (seq![true] + bits_of(tag as nat, 4) + seq![false]),
        r is Err ==> r == Err::<(), FlatError>(FlatError::BitOverflow),
{
    e.bit(true);
    let res = encode_constant_tag(tag, e);
    match res {
        Ok(u) => {
            e.bit(false);
            proof {
                lemma_bits_of_len(tag as nat, 4);
                assert(e@ =~= old(e)@ + (seq![true] + bits_of(tag as nat, 4) + seq![false]));
            }
            Ok(u)
        },
        Err(err) => Err(err),
    }
}

/// Reads the constant-tag list and fails unless it has exactly one
/// item: it returns exactly the tag whose one-item list stands at the
/// reading position.
pub fn decode_constant(d: &mut Decoder) -> (r: Result<u8, FlatError>)
    requires
        old(d).wf(),
    ensures
        final(d).wf(),
        final(d).bytes@ == old(d).bytes@,
        final(d).pos >= old(d).pos,
        r is Ok ==> r->Ok_0 < 16 && final(d).pos == old(d).pos + 6 && old(d).all().subrange(
            old(d).pos as int,
            final(d).pos as int,
        ) == seq![true] + bits_of(r->Ok_0 as nat, 4) + seq![false],
        forall|t: u8|
            t < 16 && prefix_at(
                old(d).all(),
                old(d).pos as nat,
                seq![true] + bits_of(t as nat, 4) + seq![false],
            ) ==> r == Ok::<u8, FlatError>(t),
        r is Err ==> (r == Err::<u8, FlatError>(FlatError::EndOfStream) || r == Err::<
            u8,
            FlatError,
        >(FlatError::MalformedConstantTagList)),
{
    proof {
        crate::bits::lemma_pow2n_values();
    }
    let ghost all = old(d).all();
    let ghost p0 = old(d).pos as nat;
    proof {
        assert forall|t: u8|
            t < 16 && prefix_at(
                all,
                p0,
                seq![true] + bits_of(t as nat, 4) + seq![false],
            ) implies p0 + 6 <= all.len() && all[p0 as int] == true && all[(p0 + 5) as int]
            == false && bits_of(t as nat, 4) == all.subrange((p0 + 1) as int, (p0 + 5) as int) by {
            lemma_bits_of_len(t as nat, 4);
            lemma_prefix_split(all, p0, seq![true] + bits_of(t as nat, 4), seq![false]);
            lemma_prefix_split(all, p0, seq![true], bits_of(t as nat, 4));
            lemma_prefix_one(all, p0, true);
            lemma_prefix_one(all, p0 + 5, false);
        }
    }
    let more = match d.bit() {
        Ok(b) => b,
        Err(e) => {
            return Err(e);
        },
    };
    if !more {
        return Err(FlatError::MalformedConstantTagList);
    }
    let tag = match d.bits8(4) {
        Ok(t) => t,
        Err(e) => {
            return Err(e);
        },
    };
    let again = match d.bit() {
        Ok(b) => b,
        Err(e) => {
            return Err(e);
        },
    };
    if again {
        return Err(FlatError::MalformedConstantTagList);
    }
    proof {
        lemma_bits_of_len(tag as nat, 4);
        assert(all.subrange(p0 as int, d.pos as int) =~= seq![true] + bits_of(
            tag as nat,
            4,
        ) + seq![false]);
        assert forall|t: u8|
            t < 16 && prefix_at(
                all,
                p0,
                seq![true] + bits_of(t as nat, 4) + seq![false],
            ) implies t == tag by {
            lemma_bits_of_inj(t as nat, tag as nat, 4);
        }
    }
    Ok(tag)
}

impl Constant {
    /// Appends the wire form of a constant: the tag list, then the
    /// payload. The character constant has no wire form and is refused.
    pub fn encode(&self, e: &mut Encoder) -> (r: Result<(), FlatError>)
        requires
            old(e).wf(),
        ensures
            final(e).wf(),
            r is Ok <==> const_wire_ok(self@),
            r is Ok ==> final(e)@ == old(e)@ + const_bits(self@, old(e)@.len() as nat),
    {
        match self {
            Constant::Integer(i) => {
                let res = encode_constant(0, e);
                match res {
                    Ok(_) => {
                        e.integer(*i);
                        proof {
                            assert(final(e)@ =~= old(e)@ + const_bits(
                                self@,
                                old(e)@.len() as nat,
                            ));
                        }
                        Ok(())
                    },
                    Err(err) => Err(err),
                }
            },
            Constant::ByteString(b) => {
                let res = encode_constant(1, e);
                match res {
                    Ok(_) => {
                        let ghost mid = e@;
                        e.bytes(b);
                        proof {
                            lemma_bits_of_len(1, 4);
                            assert(mid.len() == old(e)@.len() + 6);
                            assert(final(e)@ =~= old(e)@ + const_bits(
                                self@,
                                old(e)@.len() as nat,
                            ));
                        }
                        Ok(())
                    },
                    Err(err) => Err(err),
                }
            },
            Constant::String(s) => {
                let res = encode_constant(2, e);
                match res {
                    Ok(_) => {
                        let ghost mid = e@;
                        let bts = utf8_bytes(s);
                        e.bytes(&bts);
                        proof {
                            lemma_bits_of_len(2, 4);
                            assert(mid.len() == old(e)@.len() + 6);
                            assert(final(e)@ =~= old(e)@ + const_bits(
                                self@,
                                old(e)@.len() as nat,
                            ));
                        }
                        Ok(())
                    },
                    Err(err) => Err(err),
                }
            },
            Constant::Char(_) => Err(FlatError::CharConstant),
            Constant::Unit => {
                let res = encode_constant(3, e);
                match res {
                    Ok(_) => {
                        proof {
                            assert(final(e)@ =~= old(e)@ + const_bits(
                                self@,
                                old(e)@.len() as nat,
                            ));
                        }
                        Ok(())
                    },
                    Err(err) => Err(err),
                }
            },
            Constant::Bool(v) => {
                let res = encode_constant(4, e);
                match res {
                    Ok(_) => {
                        e.bool(*v);
                        proof {
                            assert(final(e)@ =~= old(e)@ + const_bits(
                                self@,
                                old(e)@.len() as nat,
                            ));
                        }
                        Ok(())
                    },
                    Err(err) => Err(err),
                }
            },
        }
    }
}

impl Term {
    /// Appends the wire form of a term: a four-bit tag, then the payload
    /// of each constructor.
    pub fn encode(&self, e: &mut Encoder) -> (r: Result<(), FlatError>)
        requires
            old(e).wf(),
        ensures
            final(e).wf(),
            r is Ok <==> wire_ok(self@),
            r is Ok ==> final(e)@ == old(e)@ + term_bits(self@, old(e)@.len() as nat),
        decreases *self,
    {
        proof {
            lemma_bits_of_len(term_tag(self@) as nat, 4);
        }
        match self {
            Term::Var(name) => {
                let res = encode_term_tag(0, e);
                match res {
                    Ok(_) => {
                        e.word(name.index);
                        proof {
                            assert(final(e)@ =~= old(e)@ + term_bits(
                                self@,
                                old(e)@.len() as nat,
                            ));
                        }
                        Ok(())
                    },
                    Err(err) => Err(err),
                }
            },
            Term::Delay(term) => {
                let res = encode_term_tag(1, e);
                match res {
                    Ok(_) => {
                        let inner = term.encode(e);
                        match inner {
                            Ok(_) => {
                                proof {
                                    assert(final(e)@ =~= old(e)@ + term_bits(
                                        self@,
                                        old(e)@.len() as nat,
                                    ));
                                }
                                Ok(())
                            },
                            Err(err) => Err(err),
                        }
                    },
                    Err(err) => Err(err),
                }
            },
            Term::Lambda { parameter_name, body } => {
                let res = encode_term_tag(2, e);
                match res {
                    Ok(_) => {
                        let inner = body.encode(e);
                        match inner {
                            Ok(_) => {
                                proof {
                                    assert(final(e)@ =~= old(e)@ + term_bits(
                                        self@,
                                        old(e)@.len() as nat,
                                    ));
                                }
                                Ok(())
                            },
                            Err(err) => Err(err),
                        }
                    },
                    Err(err) => Err(err),
                }
            },
            Term::Apply { function, argument } => {
                let res = encode_term_tag(3, e);
                match res {
                    Ok(_) => {
                        let f = function.encode(e);
                        match f {
                            Ok(_) => {
                                let ghost fb = term_bits(function@, old(e)@.len() + 4);
                                let a = argument.encode(e);
                                match a {
                                    Ok(_) => {
                                        proof {
                                            assert(final(e)@ =~= old(e)@ + term_bits(
                                                self@,
                                                old(e)@.len() as nat,
                                            ));
                                        }
                                        Ok(())
                                    },
                                    Err(err) => Err(err),
                                }
                            },
                            Err(err) => Err(err),
                        }
                    },
                    Err(err) => Err(err),
                }
            },
            Term::Constant(constant) => {
                let res = encode_term_tag(4, e);
                match res {
                    Ok(_) => {
                        let inner = constant.encode(e);
                        match inner {
                            Ok(_) => {
                                proof {
                                    assert(final(e)@ =~= old(e)@ + term_bits(
                                        self@,
                                        old(e)@.len() as nat,
                                    ));
                                }
                                Ok(())
                            },
                            Err(err) => Err(err),
                        }
                    },
                    Err(err) => Err(err),
                }
            },
            Term::Force(term) => {
                let res = encode_term_tag(5, e);
                match res {
                    Ok(_) => {
                        let inner = term.encode(e);
                        match inner {
                            Ok(_) => {
                                proof {
                                    assert(final(e)@ =~= old(e)@ + term_bits(
                                        self@,
                                        old(e)@.len() as nat,
                                    ));
                                }
                                Ok(())
                            },
                            Err(err) => Err(err),
                        }
                    },
                    Err(err) => Err(err),
                }
            },
            Term::Error => {
                let res = encode_term_tag(6, e);
                match res {
                    Ok(_) => {
                        proof {
                            assert(final(e)@ =~= old(e)@ + term_bits(
                                self@,
                                old(e)@.len() as nat,
                            ));
                        }
                        Ok(())
                    },
                    Err(err) => Err(err),
                }
            },
            Term::Builtin(builtin) => {
                let res = encode_term_tag(7, e);
                match res {
                    Ok(_) => {
                        let tag = builtin.tag();
                        proof {
                            crate::bits::lemma_pow2n_values();
                        }
                        e.bits8(BUILTIN_TAG_WIDTH as usize, tag);
                        proof {
                            assert(final(e)@ =~= old(e)@ + term_bits(
                                self@,
                                old(e)@.len() as nat,
                            ));
                        }
                        Ok(())
                    },
                    Err(err) => Err(err),
                }
            },
        }
    }
}

impl Program {
    /// The flat wire bytes of the program: the version numbers, the
    /// term, and the end marker. Fails exactly when the term holds a
    /// character constant.
    pub fn to_flat(&self) -> (r: Result<Vec<u8>, FlatError>)
        ensures
            r is Ok <==> wire_ok(self@.term),
            r is Ok ==> bytes_bits(r->Ok_0@) == program_bits(self@) && 8 * r->Ok_0@.len()
                == program_bits(self@).len(),
    {
        let mut e = Encoder::new();
        e.word(self.version.0);
        e.word(self.version.1);
        e.word(self.version.2);
        let res = self.term.encode(&mut e);
        match res {
            Ok(_) => {
                e.filler();
                proof {
                    assert(e@ =~= program_bits(self@));
                }
                Ok(e.finish())
            },
            Err(err) => Err(err),
        }
    }

    /// The flat wire bytes rendered as lower-case hexadecimal.
    pub fn flat_hex(&self) -> (r: Result<String, FlatError>)
        ensures
            r is Ok <==> wire_ok(self@.term),
            r is Ok ==> (exists|b: Seq<u8>|
                bytes_bits(b) == program_bits(self@) && 8 * b.len() == program_bits(self@).len()
                    && r->Ok_0@ == hex_of(b)),
    {
        let bytes = match self.to_flat() {
            Ok(b) => b,
            Err(err) => {
                return Err(err);
            },
        };
        let hex = hex_encode(&bytes);
        Ok(hex)
    }
}

/// Reads exactly `count` bytes, returning them; fails exactly when
/// fewer are left.
fn read_bytes(d: &mut Decoder, count: usize) -> (r: Result<Vec<u8>, FlatError>)
    requires
        old(d).wf(),
    ensures
        final(d).wf(),
        final(d).bytes@ == old(d).bytes@,
        final(d).pos >= old(d).pos,
        r is Ok <==> old(d).pos + 8 * count <= old(d).all().len(),
        r is Ok ==> r->Ok_0@.len() == count && final(d).pos == old(d).pos + 8 * count && bytes_bits(
            r->Ok_0@,
        ) == old(d).all().subrange(old(d).pos as int, final(d).pos as int),
        r is Err ==> r == Err::<Vec<u8>, FlatError>(FlatError::EndOfStream),
    decreases count,
{
    proof {
        crate::bits::lemma_pow2n_values();
        lemma_bytes_bits_len(old(d).bytes@);
    }
    if count == 0 {
        let r: Vec<u8> = Vec::new();
        proof {
            assert(bytes_bits(r@) =~= old(d).all().subrange(old(d).pos as int, old(d).pos as int));
        }
        Ok(r)
    } else {
        let mut v = match read_bytes(d, count - 1) {
            Ok(v) => v,
            Err(e) => {
                return Err(e);
            },
        };
        let b = match d.bits8(8) {
            Ok(b) => b,
            Err(e) => {
                return Err(e);
            },
        };
        let ghost pre = v@;
        v.push(b);
        proof {
            assert(v@.drop_last() =~= pre);
            assert(bytes_bits(v@) == bytes_bits(pre) + bits_of(b as nat, 8));
            assert(bytes_bits(v@) =~= old(d).all().subrange(old(d).pos as int, d.pos as int));
        }
        Ok(v)
    }
}

/// The length byte leading the first chunk of a byte string.
pub open spec fn chunk_head(s: Seq<u8>) -> nat {
    if s.len() == 0 {
        0
    } else if s.len() <= 255 {
        s.len() as nat
    } else {
        255
    }
}

/// The chunked form after its leading length byte.
pub open spec fn chunks_tail(s: Seq<u8>) -> Seq<bool> {
    if s.len() == 0 {
        Seq::empty()
    } else if s.len() <= 255 {
        bytes_bits(s) + bits_of(0, 8)
    } else {
        bytes_bits(s.take(255)) + chunks_bits(s.skip(255))
    }
}

/// The chunked form of a byte string is its leading length byte followed
/// by the rest.
proof fn lemma_chunks_shape(s: Seq<u8>)
    ensures
        chunks_bits(s) == bits_of(chunk_head(s), 8) + chunks_tail(s),
        chunk_head(s) < 256,
{
    if s.len() == 0 {
        assert(chunks_bits(s) =~= bits_of(0, 8) + Seq::<bool>::empty());
    }
}

/// Reads the chunks of a byte string: each chunk led by its length, the
/// list closed by a zero length, a short chunk only as the last. It
/// returns exactly the byte string whose chunked form stands at the
/// reading position.
#[verifier::rlimit(30)]
fn read_chunks(d: &mut Decoder) -> (r: Result<Vec<u8>, FlatError>)
    requires
        old(d).wf(),
    ensures
        final(d).wf(),
        final(d).bytes@ == old(d).bytes@,
        final(d).pos >= old(d).pos,
        r is Ok ==> final(d).pos == old(d).pos + chunks_bits(r->Ok_0@).len() && chunks_bits(
            r->Ok_0@,
        ) == old(d).all().subrange(old(d).pos as int, final(d).pos as int),
        forall|s0: Seq<u8>|
            prefix_at(old(d).all(), old(d).pos as nat, chunks_bits(s0)) ==> r is Ok && r->Ok_0@
                == s0,
        r is Err ==> (r == Err::<Vec<u8>, FlatError>(FlatError::EndOfStream) || r == Err::<
            Vec<u8>,
            FlatError,
        >(FlatError::TrailingGarbage)),
    decreases 8 * old(d).bytes@.len() - old(d).pos,
{
    proof {
        crate::bits::lemma_pow2n_values();
        lemma_bytes_bits_len(old(d).bytes@);
    }
    let ghost all = old(d).all();
    let ghost p0 = old(d).pos as nat;
    let g = match d.bits8(8) {
        Ok(g) => g,
        Err(e) => {
            proof {
                assert forall|s0: Seq<u8>| !prefix_at(all, p0, chunks_bits(s0)) by {
                    if prefix_at(all, p0, chunks_bits(s0)) {
                        lemma_chunks_shape(s0);
                        lemma_bits_of_len(chunk_head(s0), 8);
                        lemma_prefix_split(all, p0, bits_of(chunk_head(s0), 8), chunks_tail(s0));
                    }
                }
            }
            return Err(e);
        },
    };
    proof {
        assert forall|s0: Seq<u8>|
            prefix_at(all, p0, chunks_bits(s0)) implies chunk_head(s0) == g as nat && prefix_at(
            all,
            p0 + 8,
            chunks_tail(s0),
        ) by {
            lemma_chunks_shape(s0);
            lemma_bits_of_len(chunk_head(s0), 8);
            lemma_prefix_split(all, p0, bits_of(chunk_head(s0), 8), chunks_tail(s0));
            assert(bits_of(chunk_head(s0), 8) == all.subrange(p0 as int, (p0 + 8) as int));
            lemma_bits_of_inj(chunk_head(s0), g as nat, 8);
        }
    }
    if g == 0 {
        let r: Vec<u8> = Vec::new();
        proof {
            assert(chunks_bits(r@) == bits_of(0, 8));
            assert(chunks_bits(r@) =~= all.subrange(p0 as int, d.pos as int));
            assert forall|s0: Seq<u8>|
                prefix_at(all, p0, chunks_bits(s0)) implies s0 == r@ by {
                assert(chunk_head(s0) == 0);
                assert(s0 =~= r@);
            }
        }
        return Ok(r);
    }
    let ghost body_start = d.pos as nat;
    proof {
        assert forall|s0: Seq<u8>|
            prefix_at(all, p0, chunks_bits(s0)) implies prefix_at(
            all,
            body_start,
            bytes_bits(first_chunk(s0)),
        ) && prefix_at(all, body_start + 8 * (g as nat), after_chunk(s0)) && first_chunk(
            s0,
        ).len() == g as nat by {
            assert(chunk_head(s0) == g as nat);
            assert(s0.len() > 0);
            lemma_first_chunk(s0);
            lemma_bytes_bits_len(first_chunk(s0));
            lemma_prefix_split(all, body_start, bytes_bits(first_chunk(s0)), after_chunk(s0));
        }
    }
    let mut chunk = match read_bytes(d, g as usize) {
        Ok(c) => c,
        Err(e) => {
            proof {
                assert forall|s0: Seq<u8>| !prefix_at(all, p0, chunks_bits(s0)) by {
                    if prefix_at(all, p0, chunks_bits(s0)) {
                        lemma_bytes_bits_len(first_chunk(s0));
                    }
                }
            }
            return Err(e);
        },
    };
    proof {
        assert forall|s0: Seq<u8>|
            prefix_at(all, p0, chunks_bits(s0)) implies first_chunk(s0) == chunk@ by {
            lemma_bytes_bits_len(first_chunk(s0));
            assert(bytes_bits(first_chunk(s0)) == all.subrange(
                body_start as int,
                (body_start + 8 * (g as nat)) as int,
            ));
            lemma_bytes_bits_injective(first_chunk(s0), chunk@);
        }
    }
    if g < 255 {
        let terminator = match d.bits8(8) {
            Ok(t) => t,
            Err(e) => {
                proof {
                    assert forall|s0: Seq<u8>| !prefix_at(all, p0, chunks_bits(s0)) by {
                        if prefix_at(all, p0, chunks_bits(s0)) {
                            lemma_bits_of_len(0, 8);
                        }
                    }
                }
                return Err(e);
            },
        };
        if terminator != 0 {
            proof {
                assert forall|s0: Seq<u8>| !prefix_at(all, p0, chunks_bits(s0)) by {
                    if prefix_at(all, p0, chunks_bits(s0)) {
                        lemma_bits_of_len(0, 8);
                        assert(bits_of(0, 8) == all.subrange(d.pos - 8, d.pos as int));
                        lemma_bits_of_inj(0, terminator as nat, 8);
                    }
                }
            }
            return Err(FlatError::TrailingGarbage);
        }
        proof {
            lemma_bytes_bits_len(chunk@);
            assert(chunks_bits(chunk@) == bits_of(chunk@.len() as nat, 8) + bytes_bits(chunk@)
                + bits_of(0, 8));
            assert(chunks_bits(chunk@) =~= all.subrange(p0 as int, d.pos as int));
            assert forall|s0: Seq<u8>|
                prefix_at(all, p0, chunks_bits(s0)) implies s0 == chunk@ by {
                assert(s0.len() <= 255);
                assert(first_chunk(s0) =~= s0);
            }
        }
        Ok(chunk)
    } else {
        let ghost mid = d.pos as nat;
        let mut rest = match read_chunks(d) {
            Ok(r) => r,
            Err(e) => {
                proof {
                    assert forall|s0: Seq<u8>| !prefix_at(all, p0, chunks_bits(s0)) by {
                        if prefix_at(all, p0, chunks_bits(s0)) {
                            assert(prefix_at(all, mid, chunks_bits(rest_string(s0))));
                        }
                    }
                }
                return Err(e);
            },
        };
        let ghost restv = rest@;
        let ghost chunkv = chunk@;
        proof {
            assert forall|s0: Seq<u8>|
                prefix_at(all, p0, chunks_bits(s0)) implies restv == rest_string(s0) by {
                assert(prefix_at(all, mid, chunks_bits(rest_string(s0))));
            }
        }
        chunk.append(&mut rest);
        proof {
            assert(chunk@ == chunkv + restv);
            lemma_bytes_bits_len(chunkv);
            assert(chunk@.len() == 255 + restv.len());
            if restv.len() == 0 {
                assert(chunk@ =~= chunkv);
                assert(chunks_bits(restv) =~= bits_of(0, 8));
                assert(chunks_bits(chunk@) == bits_of(255, 8) + bytes_bits(chunk@) + bits_of(
                    0,
                    8,
                ));
            } else {
                assert(chunk@.len() > 255);
                assert(chunk@.take(255) =~= chunkv);
                assert(chunk@.skip(255) =~= restv);
                assert(chunks_bits(chunk@) == bits_of(255, 8) + bytes_bits(chunkv) + chunks_bits(
                    restv,
                ));
            }
            assert(chunks_bits(chunk@) =~= all.subrange(p0 as int, d.pos as int));
            assert forall|s0: Seq<u8>|
                prefix_at(all, p0, chunks_bits(s0)) implies s0 == chunk@ by {
                lemma_first_chunk(s0);
                assert(first_chunk(s0) == chunkv);
                assert(rest_string(s0) == restv);
                assert(s0 =~= chunkv + restv);
            }
        }
        Ok(chunk)
    }
}

/// The bytes of the first chunk of a nonempty byte string.
pub open spec fn first_chunk(s: Seq<u8>) -> Seq<u8> {
    if s.len() <= 255 {
        s
    } else {
        s.take(255)
    }
}

/// What remains after the first chunk of a nonempty byte string.
pub open spec fn rest_string(s: Seq<u8>) -> Seq<u8> {
    if s.len() <= 255 {
        Seq::empty()
    } else {
        s.skip(255)
    }
}

/// After the first chunk of a nonempty byte string come either the
/// closing zero byte or the remaining chunks; in both readings the rest
/// is the chunked form of what remains.
pub open spec fn after_chunk(s: Seq<u8>) -> Seq<bool> {
    chunks_bits(rest_string(s))
}

/// The tail of a nonempty chunked form is the first chunk's bytes and
/// then the chunked form of the remainder.
proof fn lemma_first_chunk(s: Seq<u8>)
    requires
        s.len() > 0,
    ensures
        chunks_tail(s) == bytes_bits(first_chunk(s)) + after_chunk(s),
        first_chunk(s).len() == chunk_head(s),
        s == first_chunk(s) + rest_string(s),
{
    if s.len() <= 255 {
        assert(chunks_bits(rest_string(s)) =~= bits_of(0, 8));
        assert(s =~= first_chunk(s) + rest_string(s));
    } else {
        assert(s =~= first_chunk(s) + rest_string(s));
    }
}

/// Maps an even number to its half and an odd one to a negative,
/// unfolding the zig-zag map.
fn unzigzag(n: usize) -> (r: isize)
    ensures
        zigzag(r as int) == n as nat,
{
    if n % 2 == 0 {
        (n / 2) as isize
    } else {
        -((n / 2) as isize) - 1
    }
}

impl Constant {
    /// Reads the wire form of a constant: it returns exactly the
    /// constant whose wire form stands at the reading position, and
    /// fails on an unknown tag, a malformed tag list, or a string that
    /// is not UTF-8.
    #[verifier::rlimit(40)]
    pub fn decode(d: &mut Decoder) -> (r: Result<Constant, FlatError>)
        requires
            old(d).wf(),
        ensures
            final(d).wf(),
            final(d).bytes@ == old(d).bytes@,
            final(d).pos >= old(d).pos,
            r is Ok ==> const_wire_ok(r->Ok_0@) && final(d).pos == old(d).pos + const_bits(
                r->Ok_0@,
                old(d).pos as nat,
            ).len() && const_bits(r->Ok_0@, old(d).pos as nat) == old(d).all().subrange(
                old(d).pos as int,
                final(d).pos as int,
            ),
            forall|c: ConstantS|
                const_wire_ok(c) && const_fits(c) && prefix_at(
                    old(d).all(),
                    old(d).pos as nat,
                    const_bits(c, old(d).pos as nat),
                ) ==> r is Ok && r->Ok_0@ == c,
            forall|x: u8|
                5 <= x < 16 && prefix_at(
                    old(d).all(),
                    old(d).pos as nat,
                    seq![true] + bits_of(x as nat, 4) + seq![false],
                ) ==> r == Err::<Constant, FlatError>(FlatError::UnknownConstantTag(x)),
        decreases 8 * old(d).bytes@.len() - old(d).pos,
    {
        let ghost all = old(d).all();
        let ghost p0 = old(d).pos as nat;
        proof {
            lemma_bytes_bits_len(old(d).bytes@);
            assert forall|c: ConstantS|
                prefix_at(all, p0, const_bits(c, p0)) implies prefix_at(all, p0, const_list(c))
                && prefix_at(all, p0 + 6, const_payload(c, p0)) by {
                lemma_const_bits_shape(c, p0);
                lemma_prefix_split(all, p0, const_list(c), const_payload(c, p0));
            }
        }
        let tag = match decode_constant(d) {
            Ok(t) => t,
            Err(e) => {
                proof {
                    assert forall|c: ConstantS|
                        !(const_wire_ok(c) && const_fits(c) && prefix_at(
                            all,
                            p0,
                            const_bits(c, p0),
                        )) by {
                        if const_wire_ok(c) && prefix_at(all, p0, const_bits(c, p0)) {
                            lemma_const_bits_shape(c, p0);
                            lemma_prefix_split(all, p0, const_list(c), const_payload(c, p0));
                            assert(prefix_at(
                                all,
                                p0,
                                seq![true] + bits_of(const_tag(c) as nat, 4) + seq![false],
                            ));
                        }
                    }
                    assert forall|x: u8|
                        !(5 <= x < 16 && prefix_at(
                            all,
                            p0,
                            seq![true] + bits_of(x as nat, 4) + seq![false],
                        )) by {}
                }
                return Err(e);
            },
        };
        proof {
            lemma_bits_of_len(tag as nat, 4);
            assert forall|x: u8|
                x < 16 && prefix_at(
                    all,
                    p0,
                    seq![true] + bits_of(x as nat, 4) + seq![false],
                ) implies x == tag by {}
            assert forall|c: ConstantS|
                prefix_at(all, p0, const_bits(c, p0)) implies const_tag(c) == tag by {
                lemma_const_bits_shape(c, p0);
            }
        }
        let ghost mid = d.pos as nat;
        match tag {
            0 => {
                proof {
                    assert forall|c: ConstantS|
                        const_fits(c) && prefix_at(all, p0, const_bits(c, p0)) implies c
                        is Integer && zigzag(c->Integer_0) <= usize::MAX && prefix_at(
                        all,
                        p0 + 6,
                        nat_bits(zigzag(c->Integer_0)),
                    ) by {
                        assert(const_tag(c) == 0);
                        lemma_const_bits_shape(c, p0);
                        lemma_prefix_split(all, p0, const_list(c), const_payload(c, p0));
                        assert(const_payload(c, p0) == nat_bits(zigzag(c->Integer_0)));
                    }
                }
                let n = match d.word() {
                    Ok(n) => n,
                    Err(e) => {
                        proof {
                            assert forall|c: ConstantS|
                                !(const_wire_ok(c) && const_fits(c) && prefix_at(
                                    all,
                                    p0,
                                    const_bits(c, p0),
                                )) by {}
                        }
                        return Err(e);
                    },
                };
                let i = unzigzag(n);
                proof {
                    assert(const_bits(Constant::Integer(i)@, p0) =~= all.subrange(
                        p0 as int,
                        d.pos as int,
                    )) by {
                        lemma_const_bits_shape(Constant::Integer(i)@, p0);
                        assert(zigzag(i as int) == n as nat);
                        assert(all.subrange(p0 as int, d.pos as int) =~= all.subrange(
                            p0 as int,
                            (p0 + 6) as int,
                        ) + all.subrange((p0 + 6) as int, d.pos as int));
                    }
                    assert forall|c: ConstantS|
                        const_wire_ok(c) && const_fits(c) && prefix_at(
                            all,
                            p0,
                            const_bits(c, p0),
                        ) implies c == Constant::Integer(i)@ by {
                        assert(c is Integer);
                        let ci = c->Integer_0;
                        assert(prefix_at(all, p0 + 6, nat_bits(zigzag(ci))));
                        assert(zigzag(ci) == n as nat);
                        lemma_zigzag_inj(ci, i as int);
                    }
                }
                Ok(Constant::Integer(i))
            },
            1 => {
                proof {
                    assert forall|c: ConstantS|
                        const_wire_ok(c) && const_fits(c) && prefix_at(
                            all,
                            p0,
                            const_bits(c, p0),
                        ) implies c is ByteString && prefix_at(all, p0 + 6, pad_bits(p0 + 6))
                        && prefix_at(
                        all,
                        p0 + 6 + pad_bits(p0 + 6).len(),
                        chunks_bits(c->ByteString_0),
                    ) by {
                        assert(const_tag(c) == 1);
                        lemma_const_bits_shape(c, p0);
                        lemma_prefix_split(all, p0, const_list(c), const_payload(c, p0));
                        lemma_prefix_split(all, p0 + 6, pad_bits(p0 + 6), chunks_bits(
                            c->ByteString_0,
                        ));
                    }
                }
                match d.filler() {
                    Ok(_) => (),
                    Err(e) => {
                        return Err(e);
                    },
                }
                let ghost ap = d.pos as nat;
                let bytes = match read_chunks(d) {
                    Ok(b) => b,
                    Err(e) => {
                        return Err(e);
                    },
                };
                proof {
                    assert(const_bits(Constant::ByteString(bytes)@, p0) =~= all.subrange(
                        p0 as int,
                        d.pos as int,
                    )) by {
                        lemma_const_bits_shape(Constant::ByteString(bytes)@, p0);
                        assert(all.subrange(p0 as int, d.pos as int) =~= all.subrange(
                            p0 as int,
                            (p0 + 6) as int,
                        ) + all.subrange((p0 + 6) as int, ap as int) + all.subrange(
                            ap as int,
                            d.pos as int,
                        ));
                    }
                    assert forall|c: ConstantS|
                        const_wire_ok(c) && const_fits(c) && prefix_at(
                            all,
                            p0,
                            const_bits(c, p0),
                        ) implies c == Constant::ByteString(bytes)@ by {
                        assert(prefix_at(all, ap, chunks_bits(c->ByteString_0)));
                        assert(c->ByteString_0 == bytes@);
                    }
                }
                Ok(Constant::ByteString(bytes))
            },
            2 => {
                proof {
                    assert forall|c: ConstantS|
                        const_wire_ok(c) && const_fits(c) && prefix_at(
                            all,
                            p0,
                            const_bits(c, p0),
                        ) implies c is Str && prefix_at(all, p0 + 6, pad_bits(p0 + 6))
                        && prefix_at(
                        all,
                        p0 + 6 + pad_bits(p0 + 6).len(),
                        chunks_bits(utf8_of(c->Str_0)),
                    ) by {
                        assert(const_tag(c) == 2);
                        lemma_const_bits_shape(c, p0);
                        lemma_prefix_split(all, p0, const_list(c), const_payload(c, p0));
                        lemma_prefix_split(all, p0 + 6, pad_bits(p0 + 6), chunks_bits(
                            utf8_of(c->Str_0),
                        ));
                    }
                }
                match d.filler() {
                    Ok(_) => (),
                    Err(e) => {
                        return Err(e);
                    },
                }
                let ghost ap = d.pos as nat;
                let bytes = match read_chunks(d) {
                    Ok(b) => b,
                    Err(e) => {
                        return Err(e);
                    },
                };
                let ghost bv = bytes@;
                proof {
                    assert forall|c: ConstantS|
                        const_wire_ok(c) && const_fits(c) && prefix_at(
                            all,
                            p0,
                            const_bits(c, p0),
                        ) implies utf8_of(c->Str_0) == bv by {
                        assert(prefix_at(all, ap, chunks_bits(utf8_of(c->Str_0))));
                    }
                }
                match utf8_string(bytes) {
                    Some(st) => {
                        proof {
                            assert(const_bits(Constant::String(st)@, p0) =~= all.subrange(
                                p0 as int,
                                d.pos as int,
                            )) by {
                                lemma_const_bits_shape(Constant::String(st)@, p0);
                                assert(utf8_of(st@) == bv);
                                assert(all.subrange(p0 as int, d.pos as int) =~= all.subrange(
                                    p0 as int,
                                    (p0 + 6) as int,
                                ) + all.subrange((p0 + 6) as int, ap as int) + all.subrange(
                                    ap as int,
                                    d.pos as int,
                                ));
                            }
                            assert forall|c: ConstantS|
                                const_wire_ok(c) && const_fits(c) && prefix_at(
                                    all,
                                    p0,
                                    const_bits(c, p0),
                                ) implies c == Constant::String(st)@ by {
                                assert(utf8_of(c->Str_0) == bv);
                                assert(st@ == c->Str_0);
                            }
                        }
                        Ok(Constant::String(st))
                    },
                    None => {
                        proof {
                            assert forall|c: ConstantS|
                                !(const_wire_ok(c) && const_fits(c) && prefix_at(
                                    all,
                                    p0,
                                    const_bits(c, p0),
                                )) by {}
                        }
                        Err(FlatError::InvalidUtf8)
                    },
                }
            },
            3 => {
                proof {
                    assert(const_bits(Constant::Unit@, p0) =~= all.subrange(
                        p0 as int,
                        d.pos as int,
                    )) by {
                        lemma_const_bits_shape(Constant::Unit@, p0);
                    }
                    assert forall|c: ConstantS|
                        const_wire_ok(c) && const_fits(c) && prefix_at(
                            all,
                            p0,
                            const_bits(c, p0),
                        ) implies c == Constant::Unit@ by {
                        assert(const_tag(c) == 3);
                    }
                }
                Ok(Constant::Unit)
            },
            4 => {
                let b = match d.bit() {
                    Ok(b) => b,
                    Err(e) => {
                        proof {
                            assert forall|c: ConstantS|
                                !(const_wire_ok(c) && const_fits(c) && prefix_at(
                                    all,
                                    p0,
                                    const_bits(c, p0),
                                )) by {
                                if const_wire_ok(c) && const_fits(c) && prefix_at(
                                    all,
                                    p0,
                                    const_bits(c, p0),
                                ) {
                                    assert(const_payload(c, p0).len() == 1);
                                }
                            }
                        }
                        return Err(e);
                    },
                };
                proof {
                    assert(const_bits(Constant::Bool(b)@, p0) =~= all.subrange(
                        p0 as int,
                        d.pos as int,
                    )) by {
                        lemma_const_bits_shape(Constant::Bool(b)@, p0);
                    }
                    assert forall|c: ConstantS|
                        const_wire_ok(c) && const_fits(c) && prefix_at(
                            all,
                            p0,
                            const_bits(c, p0),
                        ) implies c == Constant::Bool(b)@ by {
                        assert(const_tag(c) == 4);
                        lemma_const_bits_shape(c, p0);
                        lemma_prefix_split(all, p0, const_list(c), const_payload(c, p0));
                        assert(const_payload(c, p0) == seq![c->Bool_0]);
                        lemma_prefix_one(all, p0 + 6, c->Bool_0);
                        assert(all[(p0 + 6) as int] == c->Bool_0);
                    }
                }
                Ok(Constant::Bool(b))
            },
            x => {
                proof {
                    assert forall|c: ConstantS|
                        !(const_wire_ok(c) && const_fits(c) && prefix_at(
                            all,
                            p0,
                            const_bits(c, p0),
                        )) by {
                        if const_wire_ok(c) && prefix_at(all, p0, const_bits(c, p0)) {
                            assert(const_tag(c) < 5);
                        }
                    }
                }
                Err(FlatError::UnknownConstantTag(x))
            },
        }
    }
}

/// Opens a term's wire form at a position into its tag and payload.
proof fn lemma_term_open(all: Seq<bool>, p0: nat, t: TermS)
    requires
        prefix_at(all, p0, term_bits(t, p0)),
    ensures
        prefix_at(all, p0, bits_of(term_tag(t) as nat, 4)),
        prefix_at(all, p0 + 4, term_payload(t, p0)),
{
    lemma_term_bits_shape(t, p0);
    lemma_bits_of_len(term_tag(t) as nat, 4);
    lemma_prefix_split(all, p0, bits_of(term_tag(t) as nat, 4), term_payload(t, p0));
}

impl Term {
    /// Reads the wire form of a term: it returns exactly the term whose
    /// wire form stands at the reading position, with its display names
    /// cleared, and fails on any tag outside the eight constructors or a
    /// built-in outside the enumerated set.
    #[verifier::rlimit(60)]
    pub fn decode(d: &mut Decoder) -> (r: Result<Term, FlatError>)
        requires
            old(d).wf(),
        ensures
            final(d).wf(),
            final(d).bytes@ == old(d).bytes@,
            final(d).pos >= old(d).pos,
            r is Ok ==> wire_ok(r->Ok_0@) && final(d).pos == old(d).pos + term_bits(
                r->Ok_0@,
                old(d).pos as nat,
            ).len() && term_bits(r->Ok_0@, old(d).pos as nat) == old(d).all().subrange(
                old(d).pos as int,
                final(d).pos as int,
            ),
            forall|t: TermS|
                wire_ok(t) && term_fits(t) && prefix_at(
                    old(d).all(),
                    old(d).pos as nat,
                    term_bits(t, old(d).pos as nat),
                ) ==> r is Ok && r->Ok_0@ == strip_names(t),
            forall|x: u8|
                8 <= x < 16 && prefix_at(old(d).all(), old(d).pos as nat, bits_of(x as nat, 4))
                    ==> r == Err::<Term, FlatError>(FlatError::UnknownTermTag(x)),
        decreases 8 * old(d).bytes@.len() - old(d).pos,
    {
        let ghost all = old(d).all();
        let ghost p0 = old(d).pos as nat;
        proof {
            lemma_bytes_bits_len(old(d).bytes@);
            assert forall|t: TermS|
                prefix_at(all, p0, term_bits(t, p0)) implies prefix_at(
                all,
                p0,
                bits_of(term_tag(t) as nat, 4),
            ) && prefix_at(all, p0 + 4, term_payload(t, p0)) by {
                lemma_term_open(all, p0, t);
            }
        }
        let tag = match decode_term_tag(d) {
            Ok(t) => t,
            Err(e) => {
                proof {
                    assert forall|t: TermS| !prefix_at(all, p0, term_bits(t, p0)) by {
                        if prefix_at(all, p0, term_bits(t, p0)) {
                            lemma_bits_of_len(term_tag(t) as nat, 4);
                        }
                    }
                    assert forall|x: u8| !prefix_at(all, p0, bits_of(x as nat, 4)) by {
                        lemma_bits_of_len(x as nat, 4);
                    }
                }
                return Err(e);
            },
        };
        proof {
            crate::bits::lemma_pow2n_values();
            assert forall|t: TermS|
                prefix_at(all, p0, term_bits(t, p0)) implies term_tag(t) == tag by {
                lemma_bits_of_len(term_tag(t) as nat, 4);
                lemma_bits_of_inj(term_tag(t) as nat, tag as nat, 4);
            }
            assert forall|x: u8|
                8 <= x < 16 && prefix_at(all, p0, bits_of(x as nat, 4)) implies x == tag by {
                lemma_bits_of_len(x as nat, 4);
                lemma_bits_of_inj(x as nat, tag as nat, 4);
            }
        }
        match tag {
            0 => {
                let index = match d.word() {
                    Ok(n) => n,
                    Err(e) => {
                        proof {
                            assert forall|t: TermS|
                                !(wire_ok(t) && term_fits(t) && prefix_at(
                                    all,
                                    p0,
                                    term_bits(t, p0),
                                )) by {}
                        }
                        return Err(e);
                    },
                };
                let res = Term::Var(NamedDeBruijn { text: String::new(), index });
                proof {
                    lemma_term_bits_shape(res@, p0);
                    assert(term_bits(res@, p0) =~= all.subrange(p0 as int, d.pos as int)) by {
                        assert(all.subrange(p0 as int, d.pos as int) =~= all.subrange(
                            p0 as int,
                            (p0 + 4) as int,
                        ) + all.subrange((p0 + 4) as int, d.pos as int));
                    }
                    assert forall|t: TermS|
                        wire_ok(t) && term_fits(t) && prefix_at(
                            all,
                            p0,
                            term_bits(t, p0),
                        ) implies res@ == strip_names(t) by {
                        assert(t is Var);
                        lemma_term_open(all, p0, t);
                        assert(prefix_at(all, p0 + 4, nat_bits(t->Var_0.index)));
                        assert(t->Var_0.index <= usize::MAX);
                        assert(index as nat == t->Var_0.index);
                    }
                }
                Ok(res)
            },
            1 => {
                let body = match Term::decode(d) {
                    Ok(t) => t,
                    Err(e) => {
                        proof {
                            assert forall|t: TermS|
                                !(wire_ok(t) && term_fits(t) && prefix_at(
                                    all,
                                    p0,
                                    term_bits(t, p0),
                                )) by {
                                if wire_ok(t) && term_fits(t) && prefix_at(
                                    all,
                                    p0,
                                    term_bits(t, p0),
                                ) {
                                    assert(t is Delay);
                                    lemma_term_open(all, p0, t);
                                    assert(term_payload(t, p0) == term_bits(*t->Delay_0, p0 + 4));
                                    assert(prefix_at(all, p0 + 4, term_bits(*t->Delay_0, p0 + 4)));
                                    assert(wire_ok(*t->Delay_0));
                                    assert(term_fits(*t->Delay_0));
                                    assert(false);
                                }
                            }
                        }
                        return Err(e);
                    },
                };
                let res = Term::Delay(Box::new(body));
                proof {
                    lemma_term_bits_shape(res@, p0);
                    assert(term_bits(res@, p0) =~= all.subrange(p0 as int, d.pos as int)) by {
                        assert(all.subrange(p0 as int, d.pos as int) =~= all.subrange(
                            p0 as int,
                            (p0 + 4) as int,
                        ) + all.subrange((p0 + 4) as int, d.pos as int));
                    }
                    assert forall|t: TermS|
                        wire_ok(t) && term_fits(t) && prefix_at(
                            all,
                            p0,
                            term_bits(t, p0),
                        ) implies res@ == strip_names(t) by {
                        assert(t is Delay);
                        lemma_term_open(all, p0, t);
                        assert(prefix_at(all, p0 + 4, term_bits(*t->Delay_0, p0 + 4)));
                        assert(wire_ok(*t->Delay_0));
                        assert(term_fits(*t->Delay_0));
                        assert(body@ == strip_names(*t->Delay_0));
                    }
                }
                Ok(res)
            },
            2 => {
                let body = match Term::decode(d) {
                    Ok(t) => t,
                    Err(e) => {
                        proof {
                            assert forall|t: TermS|
                                !(wire_ok(t) && term_fits(t) && prefix_at(
                                    all,
                                    p0,
                                    term_bits(t, p0),
                                )) by {
                                if wire_ok(t) && term_fits(t) && prefix_at(
                                    all,
                                    p0,
                                    term_bits(t, p0),
                                ) {
                                    assert(t is Lambda);
                                    lemma_term_open(all, p0, t);
                                    assert(prefix_at(
                                        all,
                                        p0 + 4,
                                        term_bits(*t->Lambda_body, p0 + 4),
                                    ));
                                    assert(wire_ok(*t->Lambda_body));
                                    assert(term_fits(*t->Lambda_body));
                                    assert(false);
                                }
                            }
                        }
                        return Err(e);
                    },
                };
                let res = Term::Lambda {
                    parameter_name: NamedDeBruijn { text: String::new(), index: 0 },
                    body: Box::new(body),
                };
                proof {
                    lemma_term_bits_shape(res@, p0);
                    assert(term_bits(res@, p0) =~= all.subrange(p0 as int, d.pos as int)) by {
                        assert(all.subrange(p0 as int, d.pos as int) =~= all.subrange(
                            p0 as int,
                            (p0 + 4) as int,
                        ) + all.subrange((p0 + 4) as int, d.pos as int));
                    }
                    assert forall|t: TermS|
                        wire_ok(t) && term_fits(t) && prefix_at(
                            all,
                            p0,
                            term_bits(t, p0),
                        ) implies res@ == strip_names(t) by {
                        assert(t is Lambda);
                        lemma_term_open(all, p0, t);
                        assert(prefix_at(all, p0 + 4, term_bits(*t->Lambda_body, p0 + 4)));
                        assert(wire_ok(*t->Lambda_body));
                        assert(term_fits(*t->Lambda_body));
                        assert(body@ == strip_names(*t->Lambda_body));
                    }
                }
                Ok(res)
            },
            3 => {
                let function = match Term::decode(d) {
                    Ok(t) => t,
                    Err(e) => {
                        proof {
                            assert forall|t: TermS|
                                !(wire_ok(t) && term_fits(t) && prefix_at(
                                    all,
                                    p0,
                                    term_bits(t, p0),
                                )) by {
                                if wire_ok(t) && term_fits(t) && prefix_at(
                                    all,
                                    p0,
                                    term_bits(t, p0),
                                ) {
                                    assert(t is Apply);
                                    lemma_term_open(all, p0, t);
                                    lemma_prefix_split(
                                        all,
                                        p0 + 4,
                                        term_bits(*t->Apply_function, p0 + 4),
                                        term_bits(
                                            *t->Apply_argument,
                                            p0 + 4 + term_bits(*t->Apply_function, p0 + 4).len(),
                                        ),
                                    );
                                    assert(prefix_at(
                                        all,
                                        p0 + 4,
                                        term_bits(*t->Apply_function, p0 + 4),
                                    ));
                                    assert(wire_ok(*t->Apply_function));
                                    assert(term_fits(*t->Apply_function));
                                    assert(false);
                                }
                            }
                        }
                        return Err(e);
                    },
                };
                let ghost fp = d.pos as nat;
                proof {
                    assert forall|t: TermS|
                        wire_ok(t) && term_fits(t) && prefix_at(
                            all,
                            p0,
                            term_bits(t, p0),
                        ) implies t is Apply && function@ == strip_names(*t->Apply_function)
                        && prefix_at(all, fp, term_bits(*t->Apply_argument, fp)) by {
                        assert(t is Apply);
                        lemma_term_open(all, p0, t);
                        assert(wire_ok(*t->Apply_function));
                        assert(term_fits(*t->Apply_function));
                        lemma_prefix_split(
                            all,
                            p0 + 4,
                            term_bits(*t->Apply_function, p0 + 4),
                            term_bits(
                                *t->Apply_argument,
                                p0 + 4 + term_bits(*t->Apply_function, p0 + 4).len(),
                            ),
                        );
                        lemma_strip_names_bits(*t->Apply_function, p0 + 4);
                        assert(term_bits(function@, p0 + 4) == term_bits(
                            *t->Apply_function,
                            p0 + 4,
                        ));
                    }
                }
                let argument = match Term::decode(d) {
                    Ok(t) => t,
                    Err(e) => {
                        proof {
                            assert forall|t: TermS|
                                !(wire_ok(t) && term_fits(t) && prefix_at(
                                    all,
                                    p0,
                                    term_bits(t, p0),
                                )) by {
                                if wire_ok(t) && term_fits(t) && prefix_at(
                                    all,
                                    p0,
                                    term_bits(t, p0),
                                ) {
                                    assert(prefix_at(all, fp, term_bits(*t->Apply_argument, fp)));
                                    assert(wire_ok(*t->Apply_argument));
                                    assert(term_fits(*t->Apply_argument));
                                    assert(false);
                                }
                            }
                        }
                        return Err(e);
                    },
                };
                let res = Term::Apply { function: Box::new(function), argument: Box::new(argument) };
                proof {
                    lemma_term_bits_shape(res@, p0);
                    assert(term_bits(res@, p0) =~= all.subrange(p0 as int, d.pos as int)) by {
                        assert(all.subrange(p0 as int, fp as int) =~= all.subrange(
                            p0 as int,
                            (p0 + 4) as int,
                        ) + all.subrange((p0 + 4) as int, fp as int));
                        assert(all.subrange(p0 as int, d.pos as int) =~= all.subrange(
                            p0 as int,
                            (p0 + 4) as int,
                        ) + all.subrange((p0 + 4) as int, fp as int) + all.subrange(
                            fp as int,
                            d.pos as int,
                        ));
                    }
                    assert forall|t: TermS|
                        wire_ok(t) && term_fits(t) && prefix_at(
                            all,
                            p0,
                            term_bits(t, p0),
                        ) implies res@ == strip_names(t) by {
                        assert(t is Apply);
                        assert(wire_ok(*t->Apply_argument));
                        assert(term_fits(*t->Apply_argument));
                        assert(prefix_at(all, fp, term_bits(*t->Apply_argument, fp)));
                        assert(argument@ == strip_names(*t->Apply_argument));
                        assert(function@ == strip_names(*t->Apply_function));
                    }
                }
                Ok(res)
            },
            4 => {
                let c = match Constant::decode(d) {
                    Ok(c) => c,
                    Err(e) => {
                        proof {
                            assert forall|t: TermS|
                                !(wire_ok(t) && term_fits(t) && prefix_at(
                                    all,
                                    p0,
                                    term_bits(t, p0),
                                )) by {
                                if wire_ok(t) && term_fits(t) && prefix_at(
                                    all,
                                    p0,
                                    term_bits(t, p0),
                                ) {
                                    assert(t is Constant);
                                    lemma_term_open(all, p0, t);
                                    assert(prefix_at(
                                        all,
                                        p0 + 4,
                                        const_bits(t->Constant_0, p0 + 4),
                                    ));
                                    assert(const_wire_ok(t->Constant_0));
                                    assert(const_fits(t->Constant_0));
                                    assert(false);
                                }
                            }
                        }
                        return Err(e);
                    },
                };
                let res = Term::Constant(c);
                proof {
                    lemma_term_bits_shape(res@, p0);
                    assert(term_bits(res@, p0) =~= all.subrange(p0 as int, d.pos as int)) by {
                        assert(all.subrange(p0 as int, d.pos as int) =~= all.subrange(
                            p0 as int,
                            (p0 + 4) as int,
                        ) + all.subrange((p0 + 4) as int, d.pos as int));
                    }
                    assert forall|t: TermS|
                        wire_ok(t) && term_fits(t) && prefix_at(
                            all,
                            p0,
                            term_bits(t, p0),
                        ) implies res@ == strip_names(t) by {
                        assert(t is Constant);
                        lemma_term_open(all, p0, t);
                        assert(prefix_at(all, p0 + 4, const_bits(t->Constant_0, p0 + 4)));
                        assert(const_wire_ok(t->Constant_0));
                        assert(const_fits(t->Constant_0));
                        assert(c@ == t->Constant_0);
                    }
                }
                Ok(res)
            },
            5 => {
                let body = match Term::decode(d) {
                    Ok(t) => t,
                    Err(e) => {
                        proof {
                            assert forall|t: TermS|
                                !(wire_ok(t) && term_fits(t) && prefix_at(
                                    all,
                                    p0,
                                    term_bits(t, p0),
                                )) by {
                                if wire_ok(t) && term_fits(t) && prefix_at(
                                    all,
                                    p0,
                                    term_bits(t, p0),
                                ) {
                                    assert(t is Force);
                                    lemma_term_open(all, p0, t);
                                    assert(prefix_at(all, p0 + 4, term_bits(*t->Force_0, p0 + 4)));
                                    assert(wire_ok(*t->Force_0));
                                    assert(term_fits(*t->Force_0));
                                    assert(false);
                                }
                            }
                        }
                        return Err(e);
                    },
                };
                let res = Term::Force(Box::new(body));
                proof {
                    lemma_term_bits_shape(res@, p0);
                    assert(term_bits(res@, p0) =~= all.subrange(p0 as int, d.pos as int)) by {
                        assert(all.subrange(p0 as int, d.pos as int) =~= all.subrange(
                            p0 as int,
                            (p0 + 4) as int,
                        ) + all.subrange((p0 + 4) as int, d.pos as int));
                    }
                    assert forall|t: TermS|
                        wire_ok(t) && term_fits(t) && prefix_at(
                            all,
                            p0,
                            term_bits(t, p0),
                        ) implies res@ == strip_names(t) by {
                        assert(t is Force);
                        lemma_term_open(all, p0, t);
                        assert(prefix_at(all, p0 + 4, term_bits(*t->Force_0, p0 + 4)));
                        assert(wire_ok(*t->Force_0));
                        assert(term_fits(*t->Force_0));
                        assert(body@ == strip_names(*t->Force_0));
                    }
                }
                Ok(res)
            },
            6 => {
                let res = Term::Error;
                proof {
                    lemma_term_bits_shape(res@, p0);
                    assert(term_bits(res@, p0) =~= all.subrange(p0 as int, d.pos as int));
                    assert forall|t: TermS|
                        wire_ok(t) && term_fits(t) && prefix_at(
                            all,
                            p0,
                            term_bits(t, p0),
                        ) implies res@ == strip_names(t) by {
                        assert(t is Error);
                        lemma_term_open(all, p0, t);
                    }
                }
                Ok(res)
            },
            7 => {
                let b = match d.bits8(BUILTIN_TAG_WIDTH as usize) {
                    Ok(b) => b,
                    Err(e) => {
                        proof {
                            assert forall|t: TermS|
                                !(wire_ok(t) && term_fits(t) && prefix_at(
                                    all,
                                    p0,
                                    term_bits(t, p0),
                                )) by {
                                if wire_ok(t) && term_fits(t) && prefix_at(
                                    all,
                                    p0,
                                    term_bits(t, p0),
                                ) {
                                    assert(t is Builtin);
                        lemma_term_open(all, p0, t);
                                    lemma_bits_of_len(builtin_tag(t->Builtin_0) as nat, 7);
                                }
                            }
                        }
                        return Err(e);
                    },
                };
                proof {
                    crate::bits::lemma_pow2n_values();
                    assert forall|t: TermS|
                        wire_ok(t) && term_fits(t) && prefix_at(
                            all,
                            p0,
                            term_bits(t, p0),
                        ) implies t is Builtin && builtin_tag(t->Builtin_0) == b by {
                        assert(t is Builtin);
                        lemma_term_open(all, p0, t);
                        lemma_bits_of_len(builtin_tag(t->Builtin_0) as nat, 7);
                        assert(builtin_tag(t->Builtin_0) < 128);
                        lemma_bits_of_inj(builtin_tag(t->Builtin_0) as nat, b as nat, 7);
                    }
                }
                match DefaultFunction::from_tag(b) {
                    Some(f) => {
                        let res = Term::Builtin(f);
                        proof {
                            lemma_term_bits_shape(res@, p0);
                            assert(term_bits(res@, p0) =~= all.subrange(
                                p0 as int,
                                d.pos as int,
                            )) by {
                                assert(all.subrange(p0 as int, d.pos as int) =~= all.subrange(
                                    p0 as int,
                                    (p0 + 4) as int,
                                ) + all.subrange((p0 + 4) as int, d.pos as int));
                            }
                            assert forall|t: TermS|
                                wire_ok(t) && term_fits(t) && prefix_at(
                                    all,
                                    p0,
                                    term_bits(t, p0),
                                ) implies res@ == strip_names(t) by {
                                assert(builtin_tag(t->Builtin_0) == builtin_tag(f));
                                assert(t->Builtin_0 == f);
                            }
                        }
                        Ok(res)
                    },
                    None => {
                        proof {
                            assert forall|t: TermS|
                                !(wire_ok(t) && term_fits(t) && prefix_at(
                                    all,
                                    p0,
                                    term_bits(t, p0),
                                )) by {
                                if wire_ok(t) && term_fits(t) && prefix_at(
                                    all,
                                    p0,
                                    term_bits(t, p0),
                                ) {
                                    assert(builtin_tag(t->Builtin_0) == b);
                                    assert(builtin_tag(t->Builtin_0) < crate::builtins::BUILTIN_COUNT);
                                }
                            }
                        }
                        Err(FlatError::UnknownBuiltin(b))
                    },
                }
            },
            x => {
                proof {
                    assert forall|t: TermS|
                        !(wire_ok(t) && term_fits(t) && prefix_at(all, p0, term_bits(t, p0))) by {
                        if prefix_at(all, p0, term_bits(t, p0)) {
                            assert(term_tag(t) < 8);
                        }
                    }
                }
                Err(FlatError::UnknownTermTag(x))
            },
        }
    }
}

impl Program {
    /// Reads a whole program from flat wire bytes: it returns exactly
    /// the program whose wire form the input is, with display names
    /// cleared, and rejects anything after the end marker.
    #[verifier::rlimit(60)]
    pub fn unflat(bytes: &[u8]) -> (r: Result<Program, FlatError>)
        ensures
            r is Ok ==> wire_ok(r->Ok_0@.term) && bytes_bits(bytes@) == program_bits(r->Ok_0@),
            forall|p: ProgramS|
                wire_ok(p.term) && program_fits(p) && bytes@.len() <= usize::MAX / 8
                    && bytes_bits(bytes@) == program_bits(p) ==> r is Ok && r->Ok_0@
                    == (ProgramS {
                    major: p.major,
                    minor: p.minor,
                    patch: p.patch,
                    term: strip_names(p.term),
                }),
    {
        let mut owned: Vec<u8> = Vec::new();
        let mut i: usize = 0;
        let n = bytes.len();
        while i < n
            invariant
                n == bytes@.len(),
                i <= n,
                owned@.len() == i,
                forall|j: int| 0 <= j < i ==> owned@[j] == bytes@[j],
            decreases n - i,
        {
            let b = *vstd::slice::slice_index_get(bytes, i);
            owned.push(b);
            i = i + 1;
        }
        proof {
            assert(owned@ =~= bytes@);
        }
        if owned.len() > usize::MAX / 8 {
            return Err(FlatError::EndOfStream);
        }
        let mut d = Decoder::new(owned);
        let ghost all = bytes_bits(bytes@);
        proof {
            lemma_bytes_bits_len(bytes@);
            assert forall|p: ProgramS|
                wire_ok(p.term) && program_fits(p) && bytes_bits(bytes@) == program_bits(
                    p,
                ) implies prefix_at(all, 0, nat_bits(p.major)) && prefix_at(
                all,
                nat_bits(p.major).len(),
                nat_bits(p.minor),
            ) && prefix_at(
                all,
                nat_bits(p.major).len() + nat_bits(p.minor).len(),
                nat_bits(p.patch),
            ) && prefix_at(
                all,
                nat_bits(p.major).len() + nat_bits(p.minor).len() + nat_bits(p.patch).len(),
                term_bits(
                    p.term,
                    nat_bits(p.major).len() + nat_bits(p.minor).len() + nat_bits(p.patch).len(),
                ),
            ) by {
                let v = nat_bits(p.major) + nat_bits(p.minor) + nat_bits(p.patch);
                let body = v + term_bits(p.term, v.len());
                assert(prefix_at(all, 0, program_bits(p))) by {
                    assert(all.subrange(0, all.len() as int) =~= all);
                }
                lemma_prefix_split(all, 0, body, pad_bits(body.len()));
                lemma_prefix_split(all, 0, v, term_bits(p.term, v.len()));
                lemma_prefix_split(all, 0, nat_bits(p.major) + nat_bits(p.minor), nat_bits(
                    p.patch,
                ));
                lemma_prefix_split(all, 0, nat_bits(p.major), nat_bits(p.minor));
            }
        }
        let major = match d.word() {
            Ok(x) => x,
            Err(e) => {
                return Err(e);
            },
        };
        let minor = match d.word() {
            Ok(x) => x,
            Err(e) => {
                return Err(e);
            },
        };
        let patch = match d.word() {
            Ok(x) => x,
            Err(e) => {
                return Err(e);
            },
        };
        let ghost vlen = d.pos as nat;
        let term = match Term::decode(&mut d) {
            Ok(t) => t,
            Err(e) => {
                return Err(e);
            },
        };
        let ghost tend = d.pos as nat;
        proof {
            assert forall|p: ProgramS|
                wire_ok(p.term) && program_fits(p) && bytes_bits(bytes@) == program_bits(
                    p,
                ) implies major as nat == p.major && minor as nat == p.minor && patch as nat
                == p.patch && term@ == strip_names(p.term) && prefix_at(
                all,
                tend,
                pad_bits(tend),
            ) && tend + pad_bits(tend).len() == program_bits(p).len() by {
                let v = nat_bits(p.major) + nat_bits(p.minor) + nat_bits(p.patch);
                let body = v + term_bits(p.term, v.len());
                assert(major as nat == p.major);
                assert(minor as nat == p.minor);
                assert(patch as nat == p.patch);
                assert(vlen == v.len());
                assert(term@ == strip_names(p.term));
                lemma_strip_names_bits(p.term, vlen);
                assert(tend == body.len());
                assert(prefix_at(all, 0, program_bits(p))) by {
                    assert(all.subrange(0, all.len() as int) =~= all);
                }
                lemma_prefix_split(all, 0, body, pad_bits(body.len()));
            }
        }
        match d.filler() {
            Ok(_) => (),
            Err(e) => {
                return Err(e);
            },
        }
        proof {
            crate::bits::lemma_bytes_bits_len(d.bytes@);
        }
        if d.pos % 8 != 0 || d.pos / 8 != d.bytes.len() {
            proof {
                assert forall|p: ProgramS|
                    !(wire_ok(p.term) && program_fits(p) && bytes@.len() <= usize::MAX / 8
                        && bytes_bits(bytes@) == program_bits(p)) by {
                    if wire_ok(p.term) && program_fits(p) && bytes_bits(bytes@) == program_bits(
                        p,
                    ) {
                        assert(d.pos == all.len());
                        assert(false);
                    }
                }
            }
            return Err(FlatError::TrailingGarbage);
        }
        let res = Program { version: (major, minor, patch), term };
        proof {
            assert(bytes_bits(bytes@) == program_bits(res@)) by {
                let v = nat_bits(res@.major) + nat_bits(res@.minor) + nat_bits(res@.patch);
                let body = v + term_bits(res@.term, v.len());
                assert(v =~= all.subrange(0, vlen as int)) by {
                    assert(all.subrange(0, vlen as int) =~= all.subrange(
                        0,
                        nat_bits(res@.major).len() as int,
                    ) + all.subrange(
                        nat_bits(res@.major).len() as int,
                        (nat_bits(res@.major).len() + nat_bits(res@.minor).len()) as int,
                    ) + all.subrange(
                        (nat_bits(res@.major).len() + nat_bits(res@.minor).len()) as int,
                        vlen as int,
                    ));
                }
                assert(body =~= all.subrange(0, tend as int));
                assert(program_bits(res@) =~= all.subrange(0, d.pos as int));
                assert(all.subrange(0, d.pos as int) =~= all);
            }
        }
        Ok(res)
    }
}

/// Two byte sequences carrying the wire form of the same program are the
/// same bytes: re-encoding what a decode accepted returns the input, by
/// the contracts of `to_flat` and `unflat` and this law.
pub proof fn law_round_trip_bytes(p: ProgramS, b1: Seq<u8>, b2: Seq<u8>)
    requires
        bytes_bits(b1) == program_bits(p),
        bytes_bits(b2) == program_bits(p),
    ensures
        b1 == b2,
{
    lemma_bytes_bits_injective(b1, b2);
}

/// Every constant held in memory fits the machine word.
pub proof fn lemma_const_view_fits(c: Constant)
    ensures
        const_fits(c@),
{
    match c {
        Constant::Integer(i) => {
            assert(2 * (isize::MAX as int) + 1 == usize::MAX as int);
        },
        _ => {},
    }
}

/// Every term held in memory fits the machine word, so the decode
/// contracts apply to the wire form of every program one can build.
pub proof fn lemma_term_view_fits(t: Term)
    ensures
        term_fits(t@),
    decreases t,
{
    match t {
        Term::Delay(b) => {
            lemma_term_view_fits(*b);
        },
        Term::Lambda { parameter_name, body } => {
            lemma_term_view_fits(*body);
        },
        Term::Apply { function, argument } => {
            lemma_term_view_fits(*function);
            lemma_term_view_fits(*argument);
        },
        Term::Constant(c) => {
            lemma_const_view_fits(c);
        },
        Term::Force(b) => {
            lemma_term_view_fits(*b);
        },
        _ => {},
    }
}

/// Every program held in memory fits the machine word.
pub proof fn lemma_program_view_fits(p: Program)
    ensures
        program_fits(p@),
{
    lemma_term_view_fits(p.term);
}

} // verus!
