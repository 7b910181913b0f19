use imperative::{FieldDescriptor, InstrDescriptor, InstructionSet, SpecError};

fn field(name: &str, ty: &str) -> FieldDescriptor {
    FieldDescriptor { name: name.to_owned(), symbol: None, ty: ty.to_owned() }
}

fn named_field(name: &str, symbol: &str, ty: &str) -> FieldDescriptor {
    FieldDescriptor { name: name.to_owned(), symbol: Some(symbol.to_owned()), ty: ty.to_owned() }
}

fn instr(name: &str, pattern: &str, fields: Vec<FieldDescriptor>) -> InstrDescriptor {
    InstrDescriptor { name: name.to_owned(), pattern: pattern.to_owned(), fields }
}

fn expect_errors(r: Result<InstructionSet, Vec<SpecError>>) -> Vec<SpecError> {
    match r {
        Err(e) => e,
        Ok(_) => panic!("the specification should have been rejected"),
    }
}

#[test]
fn compile_tests() {
    // A specification with star opcodes whose pairs cannot be told apart
    // must be rejected with a collision.
    let errs = expect_errors(InstructionSet::compile(&vec![
        instr("Prefix", "0x00", vec![]),
        instr("SameAsPrefix", "0x0*", vec![]),
        instr("TwoBytes", "0x00_11", vec![]),
        instr("TwoBytesWithStars", "0x**_00", vec![]),
    ]));
    assert!(errs.iter().any(|e| matches!(e, SpecError::Collision { .. })));

    // Variables that occupy more pattern bits than their types hold must
    // be rejected with one overflow per offending instruction.
    let errs = expect_errors(InstructionSet::compile(&vec![
        instr("A", "0x0x_xx", vec![field("x", "u8")]),
        instr("B", "0x1x_xx_xx", vec![field("x", "u16")]),
        instr("C", "0x2x_xx_xx_xx_xx", vec![field("x", "u32")]),
        instr("D", "0x3x_xx_xx_xx_xx_xx_xx_xx_xx", vec![field("x", "u64")]),
    ]));
    assert_eq!(
        errs,
        vec![
            SpecError::Overflow { instr: 0, field: 0 },
            SpecError::Overflow { instr: 1, field: 0 },
            SpecError::Overflow { instr: 2, field: 0 },
            SpecError::Overflow { instr: 3, field: 0 },
        ]
    );
}

#[test]
fn collision_names_both_instructions() {
    // Two patterns that agree on every constant bit collide, and the error
    // names both.
    let errs = expect_errors(InstructionSet::compile(&vec![
        instr("Exact", "0x00", vec![]),
        instr("Starred", "0x0*", vec![]),
    ]));
    assert_eq!(errs, vec![SpecError::Collision { first: 0, second: 1 }]);
}

#[test]
fn prefix_collision_rejected() {
    // A pattern that is a byte prefix of another cannot be told apart from
    // it over their shared length.
    let errs = expect_errors(InstructionSet::compile(&vec![
        instr("Short", "0x0000", vec![]),
        instr("Long", "0x0000_11", vec![]),
    ]));
    assert_eq!(errs, vec![SpecError::Collision { first: 0, second: 1 }]);
}

#[test]
fn malformed_pattern_rejected() {
    let errs = expect_errors(InstructionSet::compile(&vec![instr("NoPrefix", "1010", vec![])]));
    assert_eq!(errs, vec![SpecError::MalformedPattern { instr: 0 }]);
}

#[test]
fn hex_digit_variable_rejected() {
    // A lowercase hex digit would be ambiguous with a constant nibble.
    let errs = expect_errors(InstructionSet::compile(&vec![instr(
        "HexVar",
        "0x0a",
        vec![field("a", "u8")],
    )]));
    assert!(errs.contains(&SpecError::InvalidVariableName { instr: 0, field: 0 }));
}

#[test]
fn numeric_variable_rejected() {
    let errs = expect_errors(InstructionSet::compile(&vec![instr(
        "NumVar",
        "0b0000000x",
        vec![named_field("x", "7", "u8")],
    )]));
    assert!(errs.contains(&SpecError::InvalidVariableName { instr: 0, field: 0 }));
}

#[test]
fn two_symbol_variable_rejected() {
    let errs = expect_errors(InstructionSet::compile(&vec![instr(
        "WideSym",
        "0b0000000x",
        vec![field("xy", "u8")],
    )]));
    assert!(errs.contains(&SpecError::InvalidVariableName { instr: 0, field: 0 }));
}

#[test]
fn unsupported_type_rejected() {
    let errs = expect_errors(InstructionSet::compile(&vec![instr(
        "Floaty",
        "0b0000000x",
        vec![field("x", "f32")],
    )]));
    assert!(errs.contains(&SpecError::UnsupportedType { instr: 0, field: 0 }));
}

#[test]
fn duplicate_symbol_rejected() {
    let errs = expect_errors(InstructionSet::compile(&vec![instr(
        "Twice",
        "0x0x",
        vec![field("x", "u8"), named_field("other", "x", "u8")],
    )]));
    assert!(errs.contains(&SpecError::DuplicateSymbol { instr: 0, field: 1 }));
}

#[test]
fn unbound_symbol_rejected() {
    // The pattern mentions y but only x is declared.
    let errs = expect_errors(InstructionSet::compile(&vec![instr(
        "Unbound",
        "0x0x_0y",
        vec![field("x", "u8")],
    )]));
    assert!(errs.contains(&SpecError::UnboundSymbol { instr: 0, symbol: 'y' }));
}

#[test]
fn unused_variable_rejected() {
    // The field never occurs in the pattern.
    let errs = expect_errors(InstructionSet::compile(&vec![instr(
        "Unused",
        "0x00",
        vec![field("x", "u8")],
    )]));
    assert!(errs.contains(&SpecError::UnusedVariable { instr: 0, field: 0 }));
}

#[test]
fn errors_accumulate_across_instructions() {
    // Every independently detectable mistake is reported in one pass.
    let errs = expect_errors(InstructionSet::compile(&vec![
        instr("BadPattern", "junk", vec![]),
        instr("BadField", "0x0x", vec![field("x", "f64")]),
        instr("Fine", "0x10", vec![]),
    ]));
    assert!(errs.contains(&SpecError::MalformedPattern { instr: 0 }));
    assert!(errs.contains(&SpecError::UnsupportedType { instr: 1, field: 0 }));
    assert_eq!(errs.len(), 2);
}

#[test]
fn mixed_bin_hex_collision_rejected() {
    // The same wire pattern written once in binary and once in hex still
    // collides.
    let errs = expect_errors(InstructionSet::compile(&vec![
        instr("Bin", "0b00001111", vec![]),
        instr("Hex", "0x0f", vec![]),
    ]));
    assert_eq!(errs, vec![SpecError::Collision { first: 0, second: 1 }]);
}

#[test]
fn hex_to_bin_string_expands_digits() {
    let expanded = imperative::hex_to_bin_string("0x0f");
    let as_string: String = expanded.iter().collect();
    assert_eq!(as_string, "00001111");

    let with_var = imperative::hex_to_bin_string("0x2xa");
    let as_string: String = with_var.iter().collect();
    assert_eq!(as_string, "0010xxxx1010");
}
