use uplc::ast::{Constant, NamedDeBruijn, Program, Term};
use uplc::encode::Encoder;
use uplc::flat::{encode_term_tag, safe_encode_bits, FlatError};

fn nd(index: usize) -> NamedDeBruijn {
    NamedDeBruijn { text: String::new(), index }
}

#[test]
fn flat_encode_integer() {
    let program = Program {
        version: (11, 22, 33),
        term: Term::Constant(Constant::Integer(11)),
    };

    let bytes = program.to_flat().unwrap();

    assert_eq!(
        bytes,
        vec![0b00001011, 0b00010110, 0b00100001, 0b01001000, 0b00000101, 0b10000001]
    )
}

#[test]
fn flat_decode_integer() {
    let flat_encoded = vec![
        0b00001011, 0b00010110, 0b00100001, 0b01001000, 0b00000101, 0b10000001,
    ];
    let expected_program = Program {
        version: (11, 22, 33),
        term: Term::Constant(Constant::Integer(11)),
    };

    let actual_program: Program = Program::unflat(flat_encoded.as_slice()).unwrap();

    assert_eq!(actual_program, expected_program)
}

#[test]
fn flat_hex_golden() {
    let program = Program {
        version: (11, 22, 33),
        term: Term::Constant(Constant::Integer(11)),
    };
    assert_eq!(program.flat_hex().unwrap(), "0b1621480581".to_string());
}

#[test]
fn error_term_round_trip() {
    let program = Program { version: (1, 0, 0), term: Term::Error };
    let bytes = program.to_flat().unwrap();
    assert_eq!(bytes, vec![0x01, 0x00, 0x00, 0x61]);
    assert_eq!(Program::unflat(bytes.as_slice()).unwrap(), program);
}

#[test]
fn bool_constant_payload() {
    let program = Program { version: (1, 0, 0), term: Term::Constant(Constant::Bool(true)) };
    let bytes = program.to_flat().unwrap();
    assert_eq!(bytes, vec![0x01, 0x00, 0x00, 0x4A, 0x21]);
    assert_eq!(Program::unflat(bytes.as_slice()).unwrap(), program);
}

#[test]
fn decode_reencode_identity() {
    let term = Term::Apply {
        function: Box::new(Term::Lambda { parameter_name: nd(0), body: Box::new(Term::Var(nd(1))) }),
        argument: Box::new(Term::Constant(Constant::Unit)),
    };
    let program = Program { version: (1, 0, 0), term };
    let bytes = program.to_flat().unwrap();
    let decoded = Program::unflat(bytes.as_slice()).unwrap();
    let again = decoded.to_flat().unwrap();
    assert_eq!(bytes, again);
    assert_eq!(decoded, program);
}

#[test]
fn byte_string_round_trip() {
    let program = Program {
        version: (1, 0, 0),
        term: Term::Constant(Constant::ByteString(vec![1, 2, 3, 255])),
    };
    let bytes = program.to_flat().unwrap();
    assert_eq!(Program::unflat(bytes.as_slice()).unwrap(), program);
}

#[test]
fn string_round_trip() {
    let program = Program {
        version: (1, 0, 0),
        term: Term::Constant(Constant::String(String::from("h\u{e9}llo"))),
    };
    let bytes = program.to_flat().unwrap();
    assert_eq!(Program::unflat(bytes.as_slice()).unwrap(), program);
}

#[test]
fn negative_integer_round_trip() {
    let program = Program { version: (1, 0, 0), term: Term::Constant(Constant::Integer(-300)) };
    let bytes = program.to_flat().unwrap();
    assert_eq!(Program::unflat(bytes.as_slice()).unwrap(), program);
}

#[test]
fn large_version_round_trip() {
    let program = Program { version: (1000, 128, 127), term: Term::Error };
    let bytes = program.to_flat().unwrap();
    assert_eq!(Program::unflat(bytes.as_slice()).unwrap(), program);
}

#[test]
fn char_constant_refused() {
    let program = Program { version: (1, 0, 0), term: Term::Constant(Constant::Char('x')) };
    assert_eq!(program.to_flat(), Err(FlatError::CharConstant));
}

#[test]
fn overflow_detected() {
    let mut e = Encoder::new();
    assert_eq!(safe_encode_bits(4, 16, &mut e), Err(FlatError::BitOverflow));
    assert_eq!(e.buffer.len(), 0);
    assert_eq!(safe_encode_bits(4, 15, &mut e), Ok(()));
}

#[test]
fn term_tag_width_respected() {
    let mut e = Encoder::new();
    assert_eq!(encode_term_tag(15, &mut e), Ok(()));
    assert_eq!(encode_term_tag(16, &mut e), Err(FlatError::BitOverflow));
}

#[test]
fn unknown_term_tag_rejected() {
    let bytes = vec![0x01, 0x00, 0x00, 0b10000001];
    assert_eq!(Program::unflat(bytes.as_slice()), Err(FlatError::UnknownTermTag(8)));
}

#[test]
fn unknown_builtin_rejected() {
    let bytes = vec![0x01, 0x00, 0x00, 0x7F, 0xE0];
    assert_eq!(Program::unflat(bytes.as_slice()), Err(FlatError::UnknownBuiltin(127)));
}

#[test]
fn malformed_constant_tag_list_rejected() {
    let bytes = vec![0x01, 0x00, 0x00, 0b01000001];
    assert_eq!(
        Program::unflat(bytes.as_slice()),
        Err(FlatError::MalformedConstantTagList)
    );
}

#[test]
fn invalid_utf8_rejected() {
    let bytes = vec![0x01, 0x00, 0x00, 0x49, 0x01, 0x01, 0xFF, 0x00, 0x01];
    assert_eq!(Program::unflat(bytes.as_slice()), Err(FlatError::InvalidUtf8));
}

#[test]
fn empty_input_rejected() {
    let bytes: Vec<u8> = vec![];
    assert_eq!(Program::unflat(bytes.as_slice()), Err(FlatError::EndOfStream));
}

#[test]
fn trailing_garbage_rejected() {
    let bytes = vec![0x01, 0x00, 0x00, 0x61, 0x00];
    assert_eq!(Program::unflat(bytes.as_slice()), Err(FlatError::TrailingGarbage));
}

#[test]
fn non_canonical_natural_rejected() {
    let bytes = vec![0x80, 0x00];
    assert_eq!(Program::unflat(bytes.as_slice()), Err(FlatError::BitOverflow));
}

#[test]
fn decode_clears_display_names() {
    let named = Program {
        version: (1, 0, 0),
        term: Term::Lambda {
            parameter_name: NamedDeBruijn { text: String::from("x"), index: 7 },
            body: Box::new(Term::Var(NamedDeBruijn { text: String::from("x"), index: 1 })),
        },
    };
    let bytes = named.to_flat().unwrap();
    let decoded = Program::unflat(bytes.as_slice()).unwrap();
    let stripped = Program {
        version: (1, 0, 0),
        term: Term::Lambda {
            parameter_name: nd(0),
            body: Box::new(Term::Var(nd(1))),
        },
    };
    assert_eq!(decoded, stripped);
    assert_eq!(decoded.to_flat().unwrap(), bytes);
}
