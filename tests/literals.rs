use lc3asm::{parse_number_literal, parse_pc_pair, parse_register_literal, stringz_words, unescape_stringz, PCOffsetTarget};

#[test]
fn number_literal_forms() {
    assert_eq!(parse_number_literal("42"), Ok(42));
    assert_eq!(parse_number_literal("-10"), Ok(-10));
    assert_eq!(parse_number_literal("+7"), Ok(7));
    assert_eq!(parse_number_literal("#-15"), Ok(-15));
    assert_eq!(parse_number_literal("#12"), Ok(12));
    assert_eq!(parse_number_literal("x3000"), Ok(0x3000));
    assert_eq!(parse_number_literal("XfF"), Ok(255));
    assert_eq!(parse_number_literal("x-A"), Ok(-10));
    assert_eq!(parse_number_literal("-9223372036854775808"), Ok(i64::MIN));
}

#[test]
fn number_literal_rejects_malformed_text() {
    assert!(parse_number_literal("").is_err());
    assert!(parse_number_literal("#").is_err());
    assert!(parse_number_literal("-").is_err());
    assert!(parse_number_literal("x").is_err());
    assert!(parse_number_literal("12a").is_err());
    assert!(parse_number_literal("xG1").is_err());
    assert!(parse_number_literal("abc").is_err());
    assert!(parse_number_literal("9223372036854775808").is_err());
    assert!(parse_number_literal("x10000000000000000").is_err());
}

#[test]
fn register_literals_are_hexadecimal() {
    assert_eq!(parse_register_literal("R3"), Ok(3));
    assert_eq!(parse_register_literal("r7"), Ok(7));
    assert_eq!(parse_register_literal("R10"), Ok(16));
    assert!(parse_register_literal("3").is_err());
    assert!(parse_register_literal("R").is_err());
}

#[test]
fn pc_operands_are_offsets_or_labels() {
    assert!(matches!(parse_pc_pair("5"), Ok(PCOffsetTarget::ExplicitOffset(5))));
    assert!(matches!(parse_pc_pair("#-3"), Ok(PCOffsetTarget::ExplicitOffset(-3))));
    match parse_pc_pair("LOOP") {
        Ok(PCOffsetTarget::Symbol(s)) => assert_eq!(s, "LOOP"),
        _ => panic!("expected a label"),
    }
    assert!(parse_pc_pair("#x").is_err());
}

#[test]
fn stringz_words_are_bytes_then_terminator() {
    assert_eq!(stringz_words("Hi"), vec![0x48, 0x69, 0]);
    assert_eq!(stringz_words(""), vec![0]);
    assert_eq!(stringz_words("é"), vec![0xC3, 0xA9, 0]);
}

#[test]
fn stringz_escapes_are_replaced() {
    assert_eq!(unescape_stringz("A\\n"), Some(vec![0x41, 0x0A, 0]));
    assert_eq!(unescape_stringz("\\t\\\\"), Some(vec![0x09, 0x5C, 0]));
    assert_eq!(unescape_stringz("bad\\q"), None);
}
