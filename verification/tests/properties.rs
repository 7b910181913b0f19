use imperative::{DecodeError, EncodeError, FieldDescriptor, InstrDescriptor, InstrValue,
    InstructionSet};

fn field(name: &str, ty: &str) -> FieldDescriptor {
    FieldDescriptor { name: name.to_owned(), symbol: None, ty: ty.to_owned() }
}

fn instr(name: &str, pattern: &str, fields: Vec<FieldDescriptor>) -> InstrDescriptor {
    InstrDescriptor { name: name.to_owned(), pattern: pattern.to_owned(), fields }
}

fn value(instr: usize, fields: Vec<u128>) -> InstrValue {
    InstrValue { instr, fields }
}

fn sample_set() -> InstructionSet {
    InstructionSet::compile(&vec![
        instr("Nop", "0x0000", vec![]),
        instr("Inc", "0x1x0x", vec![field("x", "u8")]),
        instr("Add", "0x2xxyyzz", vec![field("x", "u8"), field("y", "u8"), field("z", "u8")]),
        instr("Mov", "0b10000000_xxxxyyyy_xyxyxyxy", vec![field("x", "u8"), field("y", "i8")]),
    ])
    .unwrap()
}

#[test]
fn trait_it_works() {
    assert_eq!(2 + 2, 4);
}

#[test]
fn lib_it_works() {
    assert_eq!(2 + 2, 4);
}

#[test]
fn round_trip_split_variable() {
    // Pattern 0x1x0x bound to x:u8, buffer [0x1a, 0x0b]: decoding yields
    // two bytes and x = 0xab, and re-encoding reproduces the exact bytes.
    let is = sample_set();
    let (n, v) = is.decode(&[0x1a, 0x0b]).unwrap();
    assert_eq!(n, 2);
    assert_eq!(v, value(1, vec![0xab]));

    let mut buf = vec![0u8; 2];
    assert_eq!(Ok(2), is.encode(&v, &mut buf));
    assert_eq!(buf, vec![0x1a, 0x0b]);
}

#[test]
fn round_trip_all_instructions() {
    // Encoding any value drawn from the declared domains and decoding the
    // written bytes yields the value back with its exact byte length.
    let is = sample_set();
    let values = vec![
        value(0, vec![]),
        value(1, vec![0x00]),
        value(1, vec![0xff]),
        value(2, vec![0xab, 0xcd, 0xef]),
        value(3, vec![0b10101010, 0b01010101]),
    ];
    let lengths = vec![2, 2, 2, 4, 3];
    for (v, len) in values.into_iter().zip(lengths.into_iter()) {
        let mut buf = vec![0u8; 8];
        let written = is.encode(&v, &mut buf).unwrap();
        assert_eq!(written, len, "encode must report the declared fixed length");
        let (read, decoded) = is.decode(&buf).unwrap();
        assert_eq!(read, len, "decode must report the declared fixed length");
        assert_eq!(decoded, v, "decode(encode(v)) must yield v");
    }
}

#[test]
fn decode_is_deterministic() {
    let is = sample_set();
    let buffers: Vec<Vec<u8>> = vec![
        vec![0x00, 0x00],
        vec![0x1a, 0x0b],
        vec![0x2a, 0xbc, 0xde],
        vec![0xff, 0xff, 0xff],
        vec![0x1a],
        vec![],
    ];
    for buf in buffers {
        let r1 = is.decode(&buf);
        let r2 = is.decode(&buf);
        assert_eq!(r1, r2, "identical inputs must yield identical outputs");
    }
}

#[test]
fn encode_is_deterministic() {
    let is = sample_set();
    let v = value(2, vec![1, 2, 3]);
    let mut b1 = vec![0u8; 4];
    let mut b2 = vec![0u8; 4];
    let r1 = is.encode(&v, &mut b1);
    let r2 = is.encode(&v, &mut b2);
    assert_eq!(r1, r2);
    assert_eq!(b1, b2);
}

#[test]
fn tree_decode_equals_linear_scan() {
    // The decision tree and the naive linear scan agree on every buffer:
    // same successes, same values, and failures together.
    let is = sample_set();
    let buffers: Vec<Vec<u8>> = vec![
        vec![0x00, 0x00],
        vec![0x1a, 0x0b],
        vec![0x17, 0x09],
        vec![0x2a, 0xbc, 0xde],
        vec![0b10000000, 0xab, 0b10101010],
        vec![0b10000000, 0xab, 0b11101010],
        vec![0x30, 0x00],
        vec![0xff],
        vec![0x00],
        vec![],
    ];
    for buf in buffers {
        let tree = is.decode(&buf);
        let linear = is.linear_decode(&buf);
        match (&tree, &linear) {
            (Ok(a), Ok(b)) => assert_eq!(a, b, "both decoders must return the same hit"),
            (Err(_), Err(_)) => {},
            _ => panic!("tree decoding and the linear scan must succeed together"),
        }
    }
}

#[test]
fn encode_empty_buffer_untouched() {
    // A zero-length destination fails with UnexpectedEOF for any
    // non-empty instruction, and the buffer is untouched.
    let is = sample_set();
    let mut buf: Vec<u8> = vec![];
    let r = is.encode(&value(0, vec![]), &mut buf);
    assert_eq!(r, Err(EncodeError::UnexpectedEOF));
    assert_eq!(buf, Vec::<u8>::new());
}

#[test]
fn encode_short_buffer_untouched() {
    // A destination shorter than the instruction is left exactly as it
    // was: no partial writes.
    let is = sample_set();
    let mut buf = vec![0xaa, 0xbb];
    let r = is.encode(&value(2, vec![1, 2, 3]), &mut buf);
    assert_eq!(r, Err(EncodeError::UnexpectedEOF));
    assert_eq!(buf, vec![0xaa, 0xbb]);
}

#[test]
fn decode_failures_report_the_right_error() {
    let is = sample_set();
    // A buffer matching no pattern is an unknown opcode.
    assert_eq!(is.decode(&[0xff, 0xff, 0xff]), Err(DecodeError::UnknownOpcode));
    // A buffer too short for every candidate cannot complete a bit test.
    assert!(is.decode(&[]).is_err());
}

#[test]
fn boolean_fields_carry_one_bit() {
    let is = InstructionSet::compile(&vec![
        instr("Flag", "0b0000000g", vec![field("g", "bool")]),
        instr("Wide", "0b1xxxxxxx", vec![field("x", "u8")]),
    ])
    .unwrap();
    let (n, v) = is.decode(&[0b00000001]).unwrap();
    assert_eq!((n, &v), (1, &value(0, vec![1])));
    let mut buf = vec![0u8; 1];
    assert_eq!(Ok(1), is.encode(&v, &mut buf));
    assert_eq!(buf, vec![0b00000001]);
    let (_, v0) = is.decode(&[0b00000000]).unwrap();
    assert_eq!(v0, value(0, vec![0]));
}

#[test]
fn widest_field_round_trips() {
    // A 128-bit field spread over sixteen pattern bytes survives the trip.
    let is = InstructionSet::compile(&vec![instr(
        "Big",
        "0xff_xx_xx_xx_xx_xx_xx_xx_xx_xx_xx_xx_xx_xx_xx_xx_xx",
        vec![field("x", "u128")],
    )])
    .unwrap();
    let v = value(0, vec![0x0123456789abcdef0123456789abcdefu128]);
    let mut buf = vec![0u8; 17];
    assert_eq!(Ok(17), is.encode(&v, &mut buf));
    let (n, decoded) = is.decode(&buf).unwrap();
    assert_eq!(n, 17);
    assert_eq!(decoded, v);
}

#[test]
fn all_integer_types_accepted() {
    // Every supported field type binds; the widths are the natural ones.
    let is = InstructionSet::compile(&vec![
        instr("B", "0b0000000g", vec![field("g", "bool")]),
        instr("U", "0x1x", vec![field("x", "u8")]),
        instr("I", "0x2x", vec![field("x", "i8")]),
        instr("V", "0x3x_xx", vec![field("x", "u16")]),
        instr("W", "0x4x_xx", vec![field("x", "i16")]),
        instr("X", "0x5x_xx", vec![field("x", "u32")]),
        instr("Y", "0x6x_xx", vec![field("x", "i32")]),
        instr("Z", "0x7x_xx", vec![field("x", "u64")]),
        instr("P", "0x8x_xx", vec![field("x", "i64")]),
        instr("Q", "0x9x_xx", vec![field("x", "u128")]),
        instr("R", "0xax_xx", vec![field("x", "i128")]),
        instr("S", "0xbx_xx", vec![field("x", "usize")]),
        instr("T", "0xcx_xx", vec![field("x", "isize")]),
    ])
    .unwrap();
    assert_eq!(is.len(), 13);
}

#[test]
fn short_binary_pattern_padded() {
    // A binary pattern shorter than a byte is padded with constant zeros.
    let is = InstructionSet::compile(&vec![instr("Tiny", "0b101", vec![])]).unwrap();
    let (n, v) = is.decode(&[0b10100000]).unwrap();
    assert_eq!((n, v), (1, InstrValue { instr: 0, fields: vec![] }));
    let mut buf = vec![0xffu8; 2];
    assert_eq!(Ok(1), is.encode(&InstrValue { instr: 0, fields: vec![] }, &mut buf));
    assert_eq!(buf, vec![0b10100000, 0xff]);
}
