use imperative::{FieldDescriptor, InstrDescriptor, InstrValue, InstructionSet};

fn field(name: &str, ty: &str) -> FieldDescriptor {
    FieldDescriptor { name: name.to_owned(), symbol: None, ty: ty.to_owned() }
}

fn instr(name: &str, pattern: &str, fields: Vec<FieldDescriptor>) -> InstrDescriptor {
    InstrDescriptor { name: name.to_owned(), pattern: pattern.to_owned(), fields }
}

fn value(instr: usize, fields: Vec<u128>) -> InstrValue {
    InstrValue { instr, fields }
}

fn bin_set() -> InstructionSet {
    InstructionSet::compile(&vec![
        instr("A", "0b10101010", vec![]),
        instr("B", "0b0x0x0x0x", vec![field("x", "u8")]),
        instr("C", "0b0x0y0z10", vec![field("x", "u8"), field("y", "u8"), field("z", "u8")]),
        instr("D", "0b11xxyyxx", vec![field("x", "u8"), field("y", "i8")]),
    ])
    .unwrap()
}

fn hex_set() -> InstructionSet {
    InstructionSet::compile(&vec![
        instr("A", "0x0000", vec![]),
        instr("B", "0x1x0x", vec![field("x", "u8")]),
        instr("C", "0x2xyz", vec![field("x", "u8"), field("y", "u8"), field("z", "u8")]),
        instr("D", "0x3xyx", vec![field("x", "u8"), field("y", "i8")]),
    ])
    .unwrap()
}

#[test]
fn encoding_bin_opcodes() {
    let is = bin_set();
    let mut buf = vec![0u8; 1];

    let a = value(0, vec![]);
    assert_eq!(Ok(1), is.encode(&a, &mut buf), "Failed to encode unit instruction");
    assert_eq!(0b10101010, buf[0], "Encoded instruction incorrectly. Correct: 0b10101010");

    let b = value(1, vec![15]);
    assert_eq!(Ok(1), is.encode(&b, &mut buf), "Failed to encode instruction with variable");
    assert_eq!(0b01010101, buf[0], "Encoded instruction incorrectly. Correct 0b01010101");

    let c = value(2, vec![1, 1, 1]);
    assert_eq!(Ok(1), is.encode(&c, &mut buf), "Failed to encode instruction multiple variables");
    assert_eq!(0b01010110, buf[0], "Encoded instruction incorrectly. Correct 0b01010110");

    let d = value(3, vec![15, 3]);
    assert_eq!(
        Ok(1),
        is.encode(&d, &mut buf),
        "Failed to encode instruction multiple interleaved variables"
    );
    assert_eq!(0b11111111, buf[0], "Encoded instruction incorrectly. Correct 0b11111111");
}

#[test]
fn encoding_hex_opcodes() {
    let is = hex_set();
    let mut buf = vec![0u8; 2];

    let a = value(0, vec![]);
    let correct = vec![0x00, 0x00];
    assert_eq!(Ok(2), is.encode(&a, &mut buf), "Failed to encode unit instruction");
    assert_eq!(correct, buf, "Encoded instruction incorrectly");

    let b = value(1, vec![0xab]);
    let correct = vec![0x1a, 0x0b];
    assert_eq!(Ok(2), is.encode(&b, &mut buf), "Failed to encode instruction with variable");
    assert_eq!(correct, buf, "Encoded instruction incorrectly");

    let c = value(2, vec![1, 2, 3]);
    let correct = vec![0x21, 0x23];
    assert_eq!(Ok(2), is.encode(&c, &mut buf), "Failed to encode instruction multiple variables");
    assert_eq!(correct, buf, "Encoded instruction incorrectly");

    let d = value(3, vec![0xab, 1]);
    let correct = vec![0x3a, 0x1b];
    assert_eq!(
        Ok(2),
        is.encode(&d, &mut buf),
        "Failed to encode instruction multiple interleaved variables"
    );
    assert_eq!(correct, buf, "Encoded instruction incorrectly");
}

#[test]
fn encoding_star_opcodes() {
    let is = InstructionSet::compile(&vec![
        instr("Bin", "0b0*0*000y_xxxxxxxx", vec![field("x", "u8"), field("y", "bool")]),
        instr("Hex", "0xf*_xy", vec![field("x", "u8"), field("y", "u8")]),
    ])
    .unwrap();
    {
        let mut mem = vec![0, 0];
        let i = value(0, vec![0xab, 1]);
        let correct = vec![0b00000001, 0xab];
        let num_bytes = is.encode(&i, &mut mem).unwrap();
        assert_eq!(
            num_bytes, 2,
            "Reported wrong number of bytes when decoding 2 byte long instruction with stars"
        );
        assert_eq!(correct, mem, "Incorrectly encoded 2 byte long instruction with stars");
    }
    {
        let mut mem = vec![0, 0];
        let i = value(1, vec![0x0a, 0x0b]);
        let correct = vec![0xf0, 0xab];
        let num_bytes = is.encode(&i, &mut mem).unwrap();
        assert_eq!(
            num_bytes, 2,
            "Reported wrong number of bytes when decoding 2 byte long instruction with stars"
        );
        assert_eq!(correct, mem, "Incorrectly encoded 2 byte long instruction with stars");
    }
}

fn unit_set() -> InstructionSet {
    InstructionSet::compile(&vec![
        instr("One", "0x0f", vec![]),
        instr("Two", "0x1f_ff", vec![]),
        instr("Three", "0x2f_ff_ff", vec![]),
        instr("Four", "0x3f_ff_ff_ff", vec![]),
        instr("Five", "0x4f_ff_ff_ff_ff", vec![]),
    ])
    .unwrap()
}

fn vars_set() -> InstructionSet {
    InstructionSet::compile(&vec![
        instr("One", "0x0x", vec![field("x", "u8")]),
        instr("Two", "0x1x_xy", vec![field("x", "u8"), field("y", "u8")]),
        instr("Three", "0x2x_yz_zz", vec![field("x", "u8"), field("y", "u8"), field("z", "u16")]),
        instr(
            "Four",
            "0x30_wf_xf_yz",
            vec![field("w", "u8"), field("x", "u8"), field("y", "u8"), field("z", "u8")],
        ),
        instr(
            "Five",
            "0x4v_ww_xx_yy_zz",
            vec![
                field("v", "u8"),
                field("w", "u8"),
                field("x", "u8"),
                field("y", "u8"),
                field("z", "u8"),
            ],
        ),
    ])
    .unwrap()
}

#[test]
fn variable_length_variable_length_no_vars() {
    let is = unit_set();
    {
        let one = value(0, vec![]);
        let mut buf = vec![0x00; 5];
        let correct = vec![0x0f, 0x00, 0x00, 0x00, 0x00];
        let num_bytes = is.encode(&one, &mut buf).expect("Failed to decode unit instruction");
        assert_eq!(
            1, num_bytes,
            "Reported wrong number of bytes when encoding one byte unit instruction"
        );
        assert_eq!(correct, buf, "Encoded one byte uni instruction incorrectly");
    }
    {
        let two = value(1, vec![]);
        let mut buf = vec![0x00; 5];
        let correct = vec![0x1f, 0xff, 0x00, 0x00, 0x00];
        let num_bytes =
            is.encode(&two, &mut buf).expect("Failed to decode unit instruction with 2 bytes");
        assert_eq!(
            2, num_bytes,
            "Reported wrong number of bytes when encoding two bytes unit instruction"
        );
        assert_eq!(correct, buf, "Encoded two byte uni instruction incorrectly");
    }
    {
        let three = value(2, vec![]);
        let mut buf = vec![0x00; 5];
        let correct = vec![0x2f, 0xff, 0xff, 0x00, 0x00];
        let num_bytes =
            is.encode(&three, &mut buf).expect("Failed to decode unit instruction with 3 bytes");
        assert_eq!(
            3, num_bytes,
            "Reported wrong number of bytes when encoding three bytes unit instruction"
        );
        assert_eq!(correct, buf, "Encoded three byte uni instruction incorrectly");
    }
    {
        let four = value(3, vec![]);
        let mut buf = vec![0x00; 5];
        let correct = vec![0x3f, 0xff, 0xff, 0xff, 0x00];
        let num_bytes =
            is.encode(&four, &mut buf).expect("Failed to decode unit instruction with 4 bytes");
        assert_eq!(
            4, num_bytes,
            "Reported wrong number of bytes when encoding four bytes unit instruction"
        );
        assert_eq!(correct, buf, "Encoded four byte uni instruction incorrectly");
    }
    {
        let five = value(4, vec![]);
        let mut buf = vec![0x00; 5];
        let correct = vec![0x4f, 0xff, 0xff, 0xff, 0xff];
        let num_bytes =
            is.encode(&five, &mut buf).expect("Failed to decode unit instruction with 5 bytes");
        assert_eq!(
            5, num_bytes,
            "Reported wrong number of bytes when encoding five bytes unit instruction"
        );
        assert_eq!(correct, buf, "Encoded five byte uni instruction incorrectly");
    }
}

#[test]
fn variable_length_with_variables() {
    let is = vars_set();
    {
        let mut buf = vec![0x00; 5];
        let correct = vec![0x01, 0x00, 0x00, 0x00, 0x00];
        let variant = value(0, vec![1]);
        let num_bytes = is
            .encode(&variant, &mut buf)
            .expect("Failed to encode 1 byte instruction with variable(s)");
        assert_eq!(
            1, num_bytes,
            "Reported wrong number of bytes when encoding bytes instruction with variables"
        );
        assert_eq!(correct, buf, "Encoding byte instruction with variables incorrectly");
    }
    {
        let mut buf = vec![0x00; 5];
        let correct = vec![0x1a, 0xbc, 0x00, 0x00, 0x00];
        let variant = value(1, vec![0xab, 0x0c]);
        let num_bytes = is
            .encode(&variant, &mut buf)
            .expect("Failed to encode 2 byte instruction with variable(s)");
        assert_eq!(
            2, num_bytes,
            "Reported wrong number of bytes when encoding bytes instruction with variables"
        );
        assert_eq!(correct, buf, "Encoding byte instruction with variables incorrectly");
    }
    {
        let mut buf = vec![0x00; 5];
        let correct = vec![0x2a, 0xbc, 0xde, 0x00, 0x00];
        let variant = value(2, vec![0x0a, 0x0b, 0xcde]);
        let num_bytes = is
            .encode(&variant, &mut buf)
            .expect("Failed to encode 3 byte instruction with variable(s)");
        assert_eq!(
            3, num_bytes,
            "Reported wrong number of bytes when encoding bytes instruction with variables"
        );
        assert_eq!(correct, buf, "Encoding byte instruction with variables incorrectly");
    }
    {
        let mut buf = vec![0x00; 5];
        let correct = vec![0x30, 0xaf, 0xbf, 0xcd, 0x00];
        let variant = value(3, vec![0x0a, 0x0b, 0x0c, 0x0d]);
        let num_bytes = is
            .encode(&variant, &mut buf)
            .expect("Failed to encode 4 byte instruction with variable(s)");
        assert_eq!(
            4, num_bytes,
            "Reported wrong number of bytes when encoding bytes instruction with variables"
        );
        assert_eq!(correct, buf, "Encoding byte instruction with variables incorrectly");
    }
    {
        let mut buf = vec![0x00; 5];
        let correct = vec![0x4a, 0xbc, 0xde, 0xf1, 0x23];
        let variant = value(4, vec![0x0a, 0xbc, 0xde, 0xf1, 0x23]);
        let num_bytes = is
            .encode(&variant, &mut buf)
            .expect("Failed to encode 5 byte instruction with variable(s)");
        assert_eq!(
            5, num_bytes,
            "Reported wrong number of bytes when encoding bytes instruction with variables"
        );
        assert_eq!(correct, buf, "Encoding byte instruction with variables incorrectly");
    }
}

#[test]
fn encoding_hex_opcodes_with_redefiend_primitives() {
    let is = hex_set();

    let a = value(0, vec![]);
    let buf = [0x00, 0x00];
    let (num_bytes, i) = is.decode(&buf).expect("Failed to decode unit instruction");
    assert_eq!(2, num_bytes, "Reported wrong number of bytes on unit instruction");
    assert_eq!(a, i, "Decoded instruction incorrectly");

    let b = value(1, vec![0xab]);
    let buf = [0x1a, 0x0b];
    let (num_bytes, i) = is.decode(&buf).expect("Failed to decode instruction with one variable");
    assert_eq!(2, num_bytes, "Reported wrong number of bytes on instruction with variable");
    assert_eq!(b, i, "Decoded instruction incorrectly");

    let c = value(2, vec![1, 2, 3]);
    let buf = [0x21, 0x23];
    let (num_bytes, i) = is.decode(&buf).expect("Failed to decode instruction with two variables");
    assert_eq!(
        2, num_bytes,
        "Reported wrong number of bytes on instruction with multiple variables"
    );
    assert_eq!(c, i, "Decoded instruction incorrectly");

    let d = value(3, vec![0xab, 1]);
    let buf = [0x3a, 0x1b];
    let (num_bytes, i) =
        is.decode(&buf).expect("Failed to decode instruction with interleaved variables");
    assert_eq!(
        2, num_bytes,
        "Reported wrong number of bytes on instruction with multiple interleaved variables"
    );
    assert_eq!(d, i, "Decoded instruction incorrectly");
}
