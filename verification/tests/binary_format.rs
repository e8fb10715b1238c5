use regvm::binary::{
    parse_binary, parse_sections, ParseError, CODE_SECTION_MAGIC, DATA_SECTION_MAGIC,
    PROGRAM_MAGIC,
};
use regvm::memory::Value;

fn header(data_size: u16, code_size: i32) -> Vec<u8> {
    let mut b = Vec::new();
    b.extend_from_slice(&PROGRAM_MAGIC.to_le_bytes());
    b.extend_from_slice(&data_size.to_le_bytes());
    b.extend_from_slice(&code_size.to_le_bytes());
    b.extend_from_slice(&DATA_SECTION_MAGIC.to_le_bytes());
    b
}

fn entry(reg: u16, ty: u8, value: &[u8]) -> Vec<u8> {
    let mut e = Vec::new();
    e.extend_from_slice(&reg.to_le_bytes());
    e.push(ty);
    let mut v = value.to_vec();
    v.resize(29, 0);
    e.extend_from_slice(&v);
    e
}

fn instr(op: u16, res: u16, a1: u16, a2: u16) -> Vec<u8> {
    let mut i = Vec::new();
    for x in [op, res, a1, a2] {
        i.extend_from_slice(&x.to_le_bytes());
    }
    i
}

fn sample() -> Vec<u8> {
    let mut b = header(5, 2);
    b.extend(entry(0, 1, &(-42i64).to_le_bytes()));
    b.extend(entry(1, 2, &1.5f64.to_le_bytes()));
    b.extend(entry(2, 3, &[7]));
    b.extend(entry(3, 4, b"hello\0junk"));
    b.extend(entry(4, 5, &('z' as u32).to_le_bytes()));
    b.extend_from_slice(&CODE_SECTION_MAGIC.to_le_bytes());
    b.extend(instr(0x0001, 5, 0, 0));
    b.extend(instr(0x0063, 0, 0, 0));
    b
}

#[test]
fn reads_a_whole_program() {
    let b = sample();
    let (ph, dh, data, ch, code) = parse_binary(&b).unwrap();
    assert_eq!(ph.magic, -32766);
    assert_eq!(ph.data_size, 5);
    assert_eq!(ph.code_size, 2);
    assert_eq!(dh.magic, -32767);
    assert_eq!(dh.data_size, 5);
    assert_eq!(ch.magic, 32767);
    assert_eq!(ch.code_size, 2);
    assert_eq!(data.len(), 5);
    assert!(matches!(data[0].value, Value::Int(-42)));
    assert_eq!(data[0].data_type, 1);
    assert_eq!(data[1].registr, 1);
    match data[1].value {
        Value::Float(bits) => assert_eq!(f64::from_bits(bits), 1.5),
        _ => panic!("not a float"),
    }
    assert!(matches!(data[2].value, Value::Bool(true)));
    match &data[3].value {
        Value::String(s) => assert_eq!(s, "hello"),
        _ => panic!("not a string"),
    }
    assert!(matches!(data[4].value, Value::Char('z')));
    assert_eq!(code.len(), 2);
    assert_eq!(code[0].opcode, 1);
    assert_eq!(code[0].result_reg, 5);
    assert_eq!(code[1].opcode, 0x63);
}

#[test]
fn string_entry_of_29_bytes_without_terminator() {
    let mut b = header(1, 0);
    b.extend(entry(0, 4, &[b'a'; 29]));
    b.extend_from_slice(&CODE_SECTION_MAGIC.to_le_bytes());
    let (_, _, data, _, code) = parse_binary(&b).unwrap();
    assert!(code.is_empty());
    match &data[0].value {
        Value::String(s) => assert_eq!(s.as_str(), "a".repeat(29)),
        _ => panic!("not a string"),
    }
}

#[test]
fn invalid_utf8_is_replaced() {
    let mut b = header(1, 0);
    b.extend(entry(0, 4, &[b'o', 0xff, b'k']));
    b.extend_from_slice(&CODE_SECTION_MAGIC.to_le_bytes());
    let (_, _, data, _, _) = parse_binary(&b).unwrap();
    match &data[0].value {
        Value::String(s) => assert_eq!(s, "o\u{fffd}k"),
        _ => panic!("not a string"),
    }
}

#[test]
fn invalid_char_code_becomes_question_mark() {
    let mut b = header(2, 0);
    b.extend(entry(0, 5, &0xd800u32.to_le_bytes()));
    b.extend(entry(1, 5, &0x1f600u32.to_le_bytes()));
    b.extend_from_slice(&CODE_SECTION_MAGIC.to_le_bytes());
    let (_, _, data, _, _) = parse_binary(&b).unwrap();
    assert!(matches!(data[0].value, Value::Char('?')));
    assert!(matches!(data[1].value, Value::Char('\u{1f600}')));
}

#[test]
fn errors_in_reading_order() {
    assert_eq!(parse_binary(&[]).err(), Some(ParseError::UnexpectedEof));
    let mut bad = sample();
    bad[0] = 0;
    assert_eq!(parse_binary(&bad).err(), Some(ParseError::InvalidProgramMagic));
    let b = sample();
    assert_eq!(parse_binary(&b[..9]).err(), Some(ParseError::UnexpectedEof));
    let mut bad = sample();
    bad[8] = 0;
    assert_eq!(parse_binary(&bad).err(), Some(ParseError::InvalidDataMagic));
    let mut bad = sample();
    bad[10 + 32 + 2] = 9;
    assert_eq!(parse_binary(&bad).err(), Some(ParseError::UnknownDataType));
    assert_eq!(parse_binary(&b[..10 + 32 * 3]).err(), Some(ParseError::UnexpectedEof));
    let mut bad = sample();
    bad[10 + 32 * 5] = 0;
    assert_eq!(parse_binary(&bad).err(), Some(ParseError::InvalidCodeMagic));
    assert_eq!(parse_binary(&b[..b.len() - 1]).err(), Some(ParseError::UnexpectedEof));
}

#[test]
fn trailing_bytes_are_ignored() {
    let mut b = sample();
    b.extend_from_slice(&[1, 2, 3]);
    let (_, _, data, _, code) = parse_binary(&b).unwrap();
    assert_eq!(data.len(), 5);
    assert_eq!(code.len(), 2);
}

#[test]
fn sections_report_a_negative_code_size() {
    let mut b = header(0, -1);
    b.extend_from_slice(&CODE_SECTION_MAGIC.to_le_bytes());
    let (_, _, data, ch) = parse_sections(&b).unwrap();
    assert!(data.is_empty());
    assert_eq!(ch.code_size, -1);
}

#[test]
fn every_cut_before_the_end_is_unexpected_eof() {
    let b = sample();
    let end = 12 + 32 * 5 + 8 * 2;
    assert_eq!(b.len(), end);
    for n in 0..end {
        assert_eq!(parse_binary(&b[..n]).err(), Some(ParseError::UnexpectedEof), "cut at {}", n);
    }
    assert!(parse_binary(&b[..end]).is_ok());
}
