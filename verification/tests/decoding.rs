use imperative::{FieldDescriptor, InstrDescriptor, InstrValue, InstructionSet};

fn field(name: &str, ty: &str) -> FieldDescriptor {
    FieldDescriptor { name: name.to_owned(), symbol: None, ty: ty.to_owned() }
}

fn instr(name: &str, pattern: &str, fields: Vec<FieldDescriptor>) -> InstrDescriptor {
    InstrDescriptor { name: name.to_owned(), pattern: pattern.to_owned(), fields }
}

fn value(instr: usize, fields: Vec<u128>) -> InstrValue {
    InstrValue { instr, fields }
}

fn bin_set() -> InstructionSet {
    InstructionSet::compile(&vec![
        instr("A", "0b10101010", vec![]),
        instr("B", "0b0x0x0x0x", vec![field("x", "u8")]),
        instr("C", "0b0x0y0z10", vec![field("x", "u8"), field("y", "u8"), field("z", "u8")]),
        instr("D", "0b11xxyyxx", vec![field("x", "u8"), field("y", "i8")]),
    ])
    .unwrap()
}

fn hex_set() -> InstructionSet {
    InstructionSet::compile(&vec![
        instr("A", "0x0000", vec![]),
        instr("B", "0x1x0x", vec![field("x", "u8")]),
        instr("C", "0x2xyz", vec![field("x", "u8"), field("y", "u8"), field("z", "u8")]),
        instr("D", "0x3xyx", vec![field("x", "u8"), field("y", "i8")]),
    ])
    .unwrap()
}

#[test]
fn decoding_bin_opcodes() {
    let is = bin_set();
    let mut buf = [0u8; 1];

    let a = value(0, vec![]);
    buf[0] = 0b10101010;
    let (num_bytes, i) = is.decode(&buf).expect("Failed to decode unit instruction");
    assert_eq!(1, num_bytes, "Reported wrong number of bytes");
    assert_eq!(a, i, "Decoded instruction incorrectly. Correct: A");

    let b = value(1, vec![15]);
    buf[0] = 0b01010101;
    let (num_bytes, i) = is.decode(&buf).expect("Failed to decode unit instruction");
    assert_eq!(1, num_bytes, "Reported wrong number of bytes");
    assert_eq!(b, i, "Decoded instruction incorrectly. Correct: B{{x:15}}");

    let c = value(2, vec![1, 1, 1]);
    buf[0] = 0b01010110;
    let (num_bytes, i) = is.decode(&buf).expect("Failed to decode unit instruction");
    assert_eq!(1, num_bytes, "Reported wrong number of bytes");
    assert_eq!(c, i, "Decoded instruction incorrectly. Correct: C{{x:1, y:1, z:1}}");

    let d = value(3, vec![15, 3]);
    buf[0] = 0b11111111;
    let (num_bytes, i) = is.decode(&buf).expect("Failed to decode unit instruction");
    assert_eq!(1, num_bytes, "Reported wrong number of bytes");
    assert_eq!(d, i, "Decoded instruction incorrectly. Correct: D{{x:15, y:3}}");
}

#[test]
fn decoding_hex_opcodes() {
    let is = hex_set();

    let a = value(0, vec![]);
    let buf = [0x00, 0x00];
    let (num_bytes, i) = is.decode(&buf).expect("Failed to decode unit instruction");
    assert_eq!(2, num_bytes, "Reported wrong number of bytes on unit instruction");
    assert_eq!(a, i, "Decoded instruction incorrectly");

    let b = value(1, vec![0xab]);
    let buf = [0x1a, 0x0b];
    let (num_bytes, i) = is.decode(&buf).expect("Failed to decode instruction with one variable");
    assert_eq!(2, num_bytes, "Reported wrong number of bytes on instruction with variable");
    assert_eq!(b, i, "Decoded instruction incorrectly");

    let c = value(2, vec![1, 2, 3]);
    let buf = [0x21, 0x23];
    let (num_bytes, i) = is.decode(&buf).expect("Failed to decode instruction with two variables");
    assert_eq!(
        2, num_bytes,
        "Reported wrong number of bytes on instruction with multiple variables"
    );
    assert_eq!(c, i, "Decoded instruction incorrectly");

    let d = value(3, vec![0xab, 1]);
    let buf = [0x3a, 0x1b];
    let (num_bytes, i) =
        is.decode(&buf).expect("Failed to decode instruction with interleaved variables");
    assert_eq!(
        2, num_bytes,
        "Reported wrong number of bytes on instruction with multiple interleaved variables"
    );
    assert_eq!(d, i, "Decoded instruction incorrectly");
}

#[test]
fn star_opcodes_encoding_star_opcodes() {
    let is = InstructionSet::compile(&vec![
        instr("Bin", "0b0*0*000y_xxxxxxxx", vec![field("x", "u8"), field("y", "bool")]),
        instr("Hex", "0xf*_xy", vec![field("x", "u8"), field("y", "u8")]),
    ])
    .unwrap();
    {
        let mem = [
            0b00000001, 0b11111111, 0b00010001, 0b11111111, 0b01000001, 0b11111111, 0b01010001,
            0b11111111,
        ];
        let (num_bytes0, instr0) = is.decode(&mem[0..]).unwrap();
        let (num_bytes1, instr1) = is.decode(&mem[2..]).unwrap();
        let (num_bytes2, instr2) = is.decode(&mem[4..]).unwrap();
        assert_eq!(2, num_bytes0);
        assert_eq!(2, num_bytes1);
        assert_eq!(2, num_bytes2);
        assert_eq!(value(0, vec![0xff, 1]), instr0);
        assert_eq!(value(0, vec![0xff, 1]), instr1);
        assert_eq!(value(0, vec![0xff, 1]), instr2);
    }
    {
        let mem = [
            0xf0, 0xab, 0xf1, 0xab, 0xf2, 0xab, 0xf3, 0xab, 0xf4, 0xab, 0xf5, 0xab, 0xf6, 0xab,
            0xf7, 0xab, 0xf8, 0xab, 0xf9, 0xab, 0xfa, 0xab, 0xfb, 0xab, 0xfc, 0xab, 0xfd, 0xab,
            0xfe, 0xab, 0xff, 0xab,
        ];
        for idx in 0..8 {
            let (num_bytes, i) = is.decode(&mem[2 * idx..]).unwrap();
            assert_eq!(2, num_bytes);
            assert_eq!(value(1, vec![0x0a, 0x0b]), i);
        }
    }
}

fn unit_set() -> InstructionSet {
    InstructionSet::compile(&vec![
        instr("One", "0x0f", vec![]),
        instr("Two", "0x1f_ff", vec![]),
        instr("Three", "0x2f_ff_ff", vec![]),
        instr("Four", "0x3f_ff_ff_ff", vec![]),
        instr("Five", "0x4f_ff_ff_ff_ff", vec![]),
    ])
    .unwrap()
}

fn vars_set() -> InstructionSet {
    InstructionSet::compile(&vec![
        instr("One", "0x0x", vec![field("x", "u8")]),
        instr("Two", "0x1x_xy", vec![field("x", "u8"), field("y", "u8")]),
        instr("Three", "0x2x_yz_zz", vec![field("x", "u8"), field("y", "u8"), field("z", "u16")]),
        instr(
            "Four",
            "0x30_wf_xf_yz",
            vec![field("w", "u8"), field("x", "u8"), field("y", "u8"), field("z", "u8")],
        ),
        instr(
            "Five",
            "0x4v_ww_xx_yy_zz",
            vec![
                field("v", "u8"),
                field("w", "u8"),
                field("x", "u8"),
                field("y", "u8"),
                field("z", "u8"),
            ],
        ),
    ])
    .unwrap()
}

#[test]
fn variable_length_no_vars() {
    let is = unit_set();
    {
        let one = [0x0f];
        let correct = value(0, vec![]);
        let (num_bytes, i) = is.decode(&one).unwrap();
        assert_eq!(
            1, num_bytes,
            "Reported wrong number of bytes when decoding 1 byte unit instruction"
        );
        assert_eq!(i, correct, "Encoded one byte unit instruction incorrectly");
    }
    {
        let two = [0x1f, 0xff];
        let correct = value(1, vec![]);
        let (num_bytes, i) = is.decode(&two).unwrap();
        assert_eq!(
            2, num_bytes,
            "Reported wrong number of bytes when decoding 2 byte unit instruction"
        );
        assert_eq!(i, correct, "Encoded 2 byte unit instruction incorrectly");
    }
    {
        let three = [0x2f, 0xff, 0xff];
        let correct = value(2, vec![]);
        let (num_bytes, i) = is.decode(&three).unwrap();
        assert_eq!(
            3, num_bytes,
            "Reported wrong number of bytes when decoding 3 byte unit instruction"
        );
        assert_eq!(i, correct, "Encoded 3 byte unit instruction incorrectly");
    }
    {
        let four = [0x3f, 0xff, 0xff, 0xff];
        let correct = value(3, vec![]);
        let (num_bytes, i) = is.decode(&four).unwrap();
        assert_eq!(
            4, num_bytes,
            "Reported wrong number of bytes when decoding four byte unit instruction"
        );
        assert_eq!(i, correct, "Encoded four byte unit instruction incorrectly");
    }
    {
        let five = [0x4f, 0xff, 0xff, 0xff, 0xff];
        let correct = value(4, vec![]);
        let (num_bytes, i) = is.decode(&five).unwrap();
        assert_eq!(
            5, num_bytes,
            "Reported wrong number of bytes when decoding five byte unit instruction"
        );
        assert_eq!(i, correct, "Encoded five byte unit instruction incorrectly");
    }
}

#[test]
fn with_variables() {
    let is = vars_set();
    {
        let one = [0x0f];
        let correct = value(0, vec![0x0f]);
        let (num_bytes, i) = is.decode(&one).unwrap();
        assert_eq!(
            1, num_bytes,
            "Reported wrong number of bytes when decoding 1 byte unit instruction"
        );
        assert_eq!(i, correct, "Encoded one byte instruction with variables incorrectly");
    }
    {
        let two = [0x1a, 0xbc];
        let correct = value(1, vec![0xab, 0x0c]);
        let (num_bytes, i) = is.decode(&two).unwrap();
        assert_eq!(
            2, num_bytes,
            "Reported wrong number of bytes when decoding 2 byte unit instruction"
        );
        assert_eq!(i, correct, "Encoded 2 byte instruction with variables incorrectly");
    }
    {
        let three = [0x2a, 0xbc, 0xde];
        let correct = value(2, vec![0x0a, 0xb, 0xcde]);
        let (num_bytes, i) = is.decode(&three).unwrap();
        assert_eq!(
            3, num_bytes,
            "Reported wrong number of bytes when decoding 3 byte unit instruction"
        );
        assert_eq!(i, correct, "Encoded 3 byte instruction with variables incorrectly");
    }
    {
        let four = [0x30, 0xaf, 0xbf, 0xcd];
        let correct = value(3, vec![0x0a, 0x0b, 0x0c, 0x0d]);
        let (num_bytes, i) = is.decode(&four).unwrap();
        assert_eq!(
            4, num_bytes,
            "Reported wrong number of bytes when decoding four byte unit instruction"
        );
        assert_eq!(i, correct, "Encoded four byte instruction with variables incorrectly");
    }
    {
        let five = [0x4a, 0xbc, 0xde, 0xf1, 0x23];
        let correct = value(4, vec![0x0a, 0xbc, 0xde, 0xf1, 0x23]);
        let (num_bytes, i) = is.decode(&five).unwrap();
        assert_eq!(
            5, num_bytes,
            "Reported wrong number of bytes when decoding five byte unit instruction"
        );
        assert_eq!(i, correct, "Encoded five byte instruction with variables incorrectly");
    }
}

#[test]
fn decoding_hex_opcodes_with_redefined_primitives() {
    let is = hex_set();

    let a = value(0, vec![]);
    let buf = [0x00, 0x00];
    let (num_bytes, i) = is.decode(&buf).expect("Failed to decode unit instruction");
    assert_eq!(2, num_bytes, "Reported wrong number of bytes on unit instruction");
    assert_eq!(a, i, "Decoded instruction incorrectly");

    let b = value(1, vec![0xab]);
    let buf = [0x1a, 0x0b];
    let (num_bytes, i) = is.decode(&buf).expect("Failed to decode instruction with one variable");
    assert_eq!(2, num_bytes, "Reported wrong number of bytes on instruction with variable");
    assert_eq!(b, i, "Decoded instruction incorrectly");

    let c = value(2, vec![1, 2, 3]);
    let buf = [0x21, 0x23];
    let (num_bytes, i) = is.decode(&buf).expect("Failed to decode instruction with two variables");
    assert_eq!(
        2, num_bytes,
        "Reported wrong number of bytes on instruction with multiple variables"
    );
    assert_eq!(c, i, "Decoded instruction incorrectly");

    let d = value(3, vec![0xab, 1]);
    let buf = [0x3a, 0x1b];
    let (num_bytes, i) =
        is.decode(&buf).expect("Failed to decode instruction with interleaved variables");
    assert_eq!(
        2, num_bytes,
        "Reported wrong number of bytes on instruction with multiple interleaved variables"
    );
    assert_eq!(d, i, "Decoded instruction incorrectly");
}
