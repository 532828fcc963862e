use bin_parser::Binary;
use bin_parser::BinParser;
use bin_parser::DecodeError;
use bin_parser::Field;

// The canonical 112-character line of the example record below.
const LINE: &str = "0000000100000000000000000000000000010001000100000001000000000000000000000000001000000010000000000000000000000000";

// The same line with cosmetic spaces between its groups.
const SPACED_LINE: &str = "00000001 00000000 00000000 00000000 00010001 0001 00000001 00000000 00000000 00000000 0010 00000010 00000000 00000000 00000000";

fn example_record() -> Binary {
    Binary {
        label: [0x1, 0x0, 0x0, 0x0],
        opcode: 0x11,
        operand_type1: 0x1,
        operand1: [0x1, 0x0, 0x0, 0x0],
        operand_type2: 0x2,
        operand2: [0x2, 0x0, 0x0, 0x0],
    }
}

#[test]
fn test_bin_parser() {
    let content = LINE;
    let mut parser = BinParser::new(content);
    let res = parser.compile(content.to_string());
    assert!(res.is_ok());
    assert_eq!(res.unwrap(), example_record());
}

#[test]
fn example_line_decodes_field_by_field() {
    let mut parser = BinParser::new(SPACED_LINE);
    let records = parser.compiles().unwrap();
    assert_eq!(records.len(), 1);
    let r = records[0];
    assert_eq!(r.label, [0x01, 0x00, 0x00, 0x00]);
    assert_eq!(r.opcode, 0x11);
    assert_eq!(r.operand_type1, 0x1);
    assert_eq!(r.operand1, [0x01, 0x00, 0x00, 0x00]);
    assert_eq!(r.operand_type2, 0x2);
    assert_eq!(r.operand2, [0x02, 0x00, 0x00, 0x00]);
}

#[test]
fn length_111_rejected() {
    let short = "0".repeat(111);
    let mut parser = BinParser::new("");
    let res = parser.compile(short);
    assert_eq!(res, Err(DecodeError::MalformedLineLength { len: 111 }));
}

#[test]
fn length_113_rejected() {
    let long = "0".repeat(113);
    let mut parser = BinParser::new("");
    let res = parser.compile(long);
    assert_eq!(res, Err(DecodeError::MalformedLineLength { len: 113 }));
}

#[test]
fn digit_two_rejected() {
    let mut line: Vec<u8> = LINE.bytes().collect();
    line[34] = b'2';
    let line = String::from_utf8(line).unwrap();
    let mut parser = BinParser::new("");
    let res = parser.compile(line);
    assert_eq!(
        res,
        Err(DecodeError::InvalidBitCharacter { field: Field::Opcode, offset: 34 })
    );
}

#[test]
fn letter_rejected() {
    let mut line: Vec<u8> = LINE.bytes().collect();
    line[0] = b'a';
    let line = String::from_utf8(line).unwrap();
    let mut parser = BinParser::new("");
    let res = parser.compile(line);
    assert_eq!(
        res,
        Err(DecodeError::InvalidBitCharacter { field: Field::Label, offset: 0 })
    );
}

#[test]
fn first_bad_character_wins() {
    let mut line: Vec<u8> = LINE.bytes().collect();
    line[5] = b'2';
    line[50] = b'x';
    let line = String::from_utf8(line).unwrap();
    let mut parser = BinParser::new("");
    let res = parser.compile(line);
    assert_eq!(
        res,
        Err(DecodeError::InvalidBitCharacter { field: Field::Label, offset: 5 })
    );
}

#[test]
fn error_names_the_field_of_the_offset() {
    let cases: Vec<(usize, Field)> = vec![
        (0, Field::Label),
        (31, Field::Label),
        (32, Field::Opcode),
        (39, Field::Opcode),
        (40, Field::Operand1Type),
        (43, Field::Operand1Type),
        (44, Field::Operand1),
        (75, Field::Operand1),
        (76, Field::Operand2Type),
        (79, Field::Operand2Type),
        (80, Field::Operand2),
        (111, Field::Operand2),
    ];
    for (offset, field) in cases {
        let mut line: Vec<u8> = LINE.bytes().collect();
        line[offset] = b'z';
        let line = String::from_utf8(line).unwrap();
        let mut parser = BinParser::new("");
        let res = parser.compile(line);
        assert_eq!(res, Err(DecodeError::InvalidBitCharacter { field, offset }));
    }
}

#[test]
fn spaces_are_cosmetic() {
    let mut plain = BinParser::new(LINE);
    let mut spaced = BinParser::new(SPACED_LINE);
    let from_plain = plain.compiles().unwrap();
    let from_spaced = spaced.compiles().unwrap();
    assert_eq!(from_plain, from_spaced);
}

#[test]
fn decoding_is_idempotent() {
    let mut parser = BinParser::new("");
    let first = parser.compile(LINE.to_string()).unwrap();
    let second = parser.compile(LINE.to_string()).unwrap();
    assert_eq!(first, second);
}

#[test]
fn encode_gives_the_canonical_line() {
    let encoded = example_record().encode_line();
    assert_eq!(encoded, LINE);
}

#[test]
fn round_trip_reproduces_the_record() {
    let original = Binary {
        label: [0xde, 0xad, 0xbe, 0xef],
        opcode: 0xff,
        operand_type1: 0xf,
        operand1: [0x00, 0x01, 0x02, 0x03],
        operand_type2: 0x0,
        operand2: [0x80, 0x40, 0x20, 0x10],
    };
    let encoded = original.encode_line();
    let mut parser = BinParser::new("");
    let decoded = parser.compile(encoded).unwrap();
    assert_eq!(decoded, original);
}

#[test]
fn batch_abort_reports_the_failing_line() {
    let text = format!("{}\n{}", LINE, "0".repeat(111));
    let mut parser = BinParser::new(&text);
    let res = parser.compiles();
    let err = res.unwrap_err();
    assert_eq!(err.line, 2);
    assert_eq!(err.error, DecodeError::MalformedLineLength { len: 111 });
}

#[test]
fn batch_collect_keeps_the_good_lines() {
    let text = format!("{}\n{}", LINE, "0".repeat(111));
    let mut parser = BinParser::new(&text);
    let (records, errors) = parser.compiles_collect();
    assert_eq!(records, vec![example_record()]);
    assert_eq!(errors.len(), 1);
    assert_eq!(errors[0].line, 2);
    assert_eq!(errors[0].error, DecodeError::MalformedLineLength { len: 111 });
}

#[test]
fn empty_lines_are_ignored() {
    let text = format!("\n\n{}\n", LINE);
    let mut parser = BinParser::new(&text);
    let records = parser.compiles().unwrap();
    assert_eq!(records, vec![example_record()]);
}

#[test]
fn space_only_line_is_a_length_error() {
    let text = format!("{}\n ", LINE);
    let mut parser = BinParser::new(&text);
    let (records, errors) = parser.compiles_collect();
    assert_eq!(records, vec![example_record()]);
    assert_eq!(errors.len(), 1);
    assert_eq!(errors[0].line, 2);
    assert_eq!(errors[0].error, DecodeError::MalformedLineLength { len: 0 });
}

#[test]
fn word_conversion_keeps_group_order() {
    let parser = BinParser::new("");
    let bytes = parser.compile_bin_le_bytes("00000001000000100000001111111111");
    assert_eq!(bytes, [1, 2, 3, 255]);
}

#[test]
fn extreme_field_values_decode() {
    let line = "1".repeat(112);
    let mut parser = BinParser::new("");
    let r = parser.compile(line).unwrap();
    assert_eq!(r.label, [0xff, 0xff, 0xff, 0xff]);
    assert_eq!(r.opcode, 0xff);
    assert_eq!(r.operand_type1, 0xf);
    assert_eq!(r.operand1, [0xff, 0xff, 0xff, 0xff]);
    assert_eq!(r.operand_type2, 0xf);
    assert_eq!(r.operand2, [0xff, 0xff, 0xff, 0xff]);
}
