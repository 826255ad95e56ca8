use lc3asm::{
    assemble, assemble_from_pairs, assemble_text, first_pass, parse, table_to_string, AluOp, BaseOp, Error, Field, Instr, Node,
    Operand, PcOp, Span, TrapRoutine,
};

fn sp(n: usize) -> Span {
    Span { start: n, end: n + 1 }
}

fn op(t: &str) -> Operand {
    Operand { text: t.to_string(), span: sp(0) }
}

fn op_at(t: &str, n: usize) -> Operand {
    Operand { text: t.to_string(), span: sp(n) }
}

fn label(name: &str) -> Node {
    Node::LabelDecl { name: name.to_string(), span: sp(0) }
}

fn label_at(name: &str, n: usize) -> Node {
    Node::LabelDecl { name: name.to_string(), span: sp(n) }
}

fn ins(instr: Instr) -> Node {
    Node::Instruction { instr, span: sp(0) }
}

fn orig(v: &str) -> Node {
    Node::Orig { value: op(v) }
}

fn trap(routine: TrapRoutine) -> Node {
    Node::TrapCode { routine, span: sp(0) }
}

fn fill(v: &str) -> Node {
    Node::Fill { value: op(v) }
}

fn add_imm(dr: &str, sr1: &str, imm: &str) -> Node {
    ins(Instr::AluImm { op: AluOp::Add, dr: op(dr), sr1: op(sr1), imm: op(imm) })
}

fn and_imm(dr: &str, sr1: &str, imm: &str) -> Node {
    ins(Instr::AluImm { op: AluOp::And, dr: op(dr), sr1: op(sr1), imm: op(imm) })
}

fn add(dr: &str, sr1: &str, sr2: &str) -> Node {
    ins(Instr::Alu { op: AluOp::Add, dr: op(dr), sr1: op(sr1), sr2: op(sr2) })
}

fn not(dr: &str, sr: &str) -> Node {
    ins(Instr::Not { dr: op(dr), sr: op(sr) })
}

fn br(flags: &str, target: &str) -> Node {
    ins(Instr::Br { flags: op(flags), target: op(target) })
}

fn pcrel(o: PcOp, r: &str, target: &str) -> Node {
    ins(Instr::PcRel { op: o, reg: op(r), target: op(target) })
}

fn words(ws: &[u16]) -> Vec<u8> {
    let mut v = Vec::new();
    for w in ws {
        v.push((w >> 8) as u8);
        v.push((w & 0xFF) as u8);
    }
    v
}

fn program1() -> Vec<Node> {
    vec![
        orig("x0400"),
        pcrel(PcOp::St, "R3", "SAVE3"),
        pcrel(PcOp::St, "R2", "SAVE2"),
        and_imm("R2", "R2", "#0"),
        label("TEST"),
        trap(TrapRoutine::In),
        br("z", "TEST"),
        add_imm("R1", "R0", "#-10"),
        br("n", "FINISH"),
        add_imm("R1", "R0", "#-15"),
        not("R1", "R1"),
        br("n", "FINISH"),
        trap(TrapRoutine::Halt),
        label("FINISH"),
        add_imm("R2", "R2", "#1"),
        trap(TrapRoutine::Halt),
        label("SAVE3"),
        fill("x0000"),
        label("SAVE2"),
        fill("x0000"),
        Node::End,
    ]
}

#[test]
fn test_program1() {
    let parsed = parse(
        "\t.ORIG\tx0400\n\tST\tR3, SAVE3\n\tST\tR2, SAVE2\n\tAND\tR2, R2, #0\nTEST\tIN\n\tBRz\tTEST\n\tADD\tR1, R0, #-10\n\tBRn\tFINISH\n\tADD\tR1, R0, #-15\n\tNOT\tR1, R1\n\tBRn FINISH\n\tHALT\nFINISH\tADD\tR2, R2, #1\n\tHALT\nSAVE3\t.FILL\tx0000\nSAVE2\t.FILL\tx0000\n\t.END",
    )
    .unwrap();
    let (symbols, size) = first_pass(&parsed).unwrap();
    assert_eq!(size, 15);
    let table_str = table_to_string(&symbols, 0x0400);
    assert_eq!(
        table_str,
        "//Symbol Name\t\tPage Address\n//----------------\t------------\n//\tFINISH                  040B\n//\tSAVE2                   040E\n//\tSAVE3                   040D\n//\tTEST                    0403\n"
    );
}

#[test]
fn program1_listing_from_nodes() {
    let parsed = program1();
    let (symbols, size) = first_pass(&parsed).unwrap();
    assert_eq!(size, 15);
    let table_str = table_to_string(&symbols, 0x0400);
    assert_eq!(
        table_str,
        "//Symbol Name\t\tPage Address\n//----------------\t------------\n//\tFINISH                  040B\n//\tSAVE2                   040E\n//\tSAVE3                   040D\n//\tTEST                    0403\n"
    );
}

#[test]
fn adder_image() {
    let nodes = vec![
        orig("x3000"),
        and_imm("r0", "r0", "#0"),
        add_imm("r0", "r0", "#8"),
        add_imm("r0", "r0", "#8"),
        trap(TrapRoutine::Out),
        trap(TrapRoutine::Halt),
        Node::End,
        Node::Eoi,
    ];
    let image = assemble(&nodes).unwrap();
    assert_eq!(image, words(&[0x3000, 0x5020, 0x1028, 0x1028, 0xF021, 0xF025]));
}

#[test]
fn string_print_image() {
    let nodes = vec![
        orig("x3000"),
        pcrel(PcOp::Lea, "r0", "STZ"),
        trap(TrapRoutine::Puts),
        trap(TrapRoutine::Halt),
        label("STZ"),
        Node::Stringz { text: op("HELLO\\n"), span: sp(0) },
        Node::End,
    ];
    let image = assemble(&nodes).unwrap();
    assert_eq!(
        image,
        words(&[0x3000, 0xE002, 0xF022, 0xF025, 0x48, 0x45, 0x4C, 0x4C, 0x4F, 0x0A, 0x00])
    );
}

#[test]
fn integer_division_image() {
    let nodes = vec![
        orig("x3000"),
        pcrel(PcOp::Ldi, "R0", "NUM"),
        pcrel(PcOp::Ldi, "R1", "DIV"),
        not("R1", "R1"),
        add_imm("R1", "R1", "#1"),
        and_imm("R2", "R2", "#0"),
        label("LOOP"),
        add("R3", "R0", "R1"),
        br("n", "OUTL"),
        add_imm("R2", "R2", "#1"),
        add_imm("R0", "R3", "#0"),
        br("", "LOOP"),
        label("OUTL"),
        pcrel(PcOp::Sti, "R0", "REM"),
        pcrel(PcOp::Sti, "R2", "QTT"),
        trap(TrapRoutine::Halt),
        label("NUM"),
        fill("x4000"),
        label("DIV"),
        fill("x4001"),
        label("QTT"),
        fill("x4002"),
        label("REM"),
        fill("x4003"),
        Node::End,
    ];
    let a = assemble_from_pairs(&nodes).unwrap();
    assert_eq!(
        a.image,
        words(&[
            0x3000, 0xA00C, 0xA20C, 0x927F, 0x1261, 0x54A0, 0x1601, 0x0803, 0x14A1, 0x10E0, 0x0FFB,
            0xB005, 0xB403, 0xF025, 0x4000, 0x4001, 0x4002, 0x4003,
        ])
    );
    assert_eq!(a.warnings.len(), 1);
    assert_eq!(a.symbols.len(), 6);
}

#[test]
fn assembling_twice_gives_the_same_result() {
    let first = assemble_from_pairs(&program1()).unwrap();
    let second = assemble_from_pairs(&program1()).unwrap();
    assert_eq!(first.image, second.image);
    assert_eq!(table_to_string(&first.symbols, 0x400), table_to_string(&second.symbols, 0x400));
}

#[test]
fn image_size_is_two_bytes_per_word() {
    let nodes = program1();
    let (_, size) = first_pass(&nodes).unwrap();
    let image = assemble(&nodes).unwrap();
    assert_eq!(image.len(), 2 * (size + 1));
}

#[test]
fn label_offsets_count_each_directive() {
    let nodes = vec![
        orig("x3000"),
        label("A"),
        ins(Instr::Nop),
        label("B"),
        Node::Blkw { count: op("3") },
        label("C"),
        Node::Stringz { text: op("ab"), span: sp(0) },
        label("D"),
        fill("#-1"),
        label("E"),
        trap(TrapRoutine::Getc),
        label("F"),
        Node::Blkw { count: op("x2") },
        label("G"),
    ];
    let (symbols, size) = first_pass(&nodes).unwrap();
    assert_eq!(size, 11);
    let offsets: Vec<(String, usize)> =
        (0..symbols.len()).map(|i| (symbols.get(i).name.clone(), symbols.get(i).offset)).collect();
    assert_eq!(
        offsets,
        vec![
            ("A".to_string(), 0),
            ("B".to_string(), 1),
            ("C".to_string(), 4),
            ("D".to_string(), 7),
            ("E".to_string(), 8),
            ("F".to_string(), 9),
            ("G".to_string(), 11),
        ]
    );
    let image = assemble(&nodes).unwrap();
    assert_eq!(
        image,
        words(&[0x3000, 0x0000, 0, 0, 0, 0x61, 0x62, 0, 0xFFFF, 0xF020, 0, 0])
    );
}

#[test]
fn every_construct_is_whole_words() {
    let nodes = vec![
        orig("x3000"),
        ins(Instr::Jmp { base: op("R2") }),
        ins(Instr::Jsr { target: op("#-1") }),
        ins(Instr::Jsrr { base: op("R5") }),
        ins(Instr::BaseRel { op: BaseOp::Ldr, reg: op("R1"), base: op("R6"), offset: op("#-2") }),
        ins(Instr::BaseRel { op: BaseOp::Str, reg: op("R1"), base: op("R6"), offset: op("#31") }),
        ins(Instr::Ret),
        ins(Instr::Rti),
        ins(Instr::Trap { vector: op("x25") }),
        ins(Instr::Nop),
        pcrel(PcOp::Ld, "R4", "#0"),
    ];
    let image = assemble(&nodes).unwrap();
    assert_eq!(
        image,
        words(&[
            0x3000, 0xC080, 0x4FFF, 0x4140, 0x63BE, 0x739F, 0xC1C0, 0x8000, 0xF025, 0x0000, 0x2800,
        ])
    );
}

#[test]
fn pc_offsets_are_relative_to_the_next_word() {
    let nodes = vec![orig("x3000"), label("HERE"), br("nzp", "HERE"), br("p", "THERE"), label("THERE")];
    let image = assemble(&nodes).unwrap();
    assert_eq!(image, words(&[0x3000, 0x0FFF, 0x0200]));
}

#[test]
fn pc_offset_out_of_range_is_a_field_overflow() {
    let mut nodes = vec![orig("x3000"), Node::Instruction { instr: Instr::Br { flags: op("nzp"), target: op_at("FAR", 7) }, span: sp(6) }];
    nodes.push(Node::Blkw { count: op("256") });
    nodes.push(label("FAR"));
    match assemble(&nodes) {
        Err(Error::FieldOverflow { field, value, span }) => {
            assert_eq!(field, Field::PcOffset);
            assert_eq!(value, 256);
            assert_eq!(span, sp(7));
        },
        other => panic!("unexpected {:?}", other),
    }
    let mut nodes = vec![orig("x3000"), br("nzp", "FAR")];
    nodes.push(Node::Blkw { count: op("255") });
    nodes.push(label("FAR"));
    assert!(assemble(&nodes).is_ok());
}

#[test]
fn duplicate_label_names_both_declarations() {
    let nodes = vec![orig("x3000"), label_at("X", 3), ins(Instr::Nop), label_at("X", 9)];
    match first_pass(&nodes) {
        Err(Error::DuplicateSymbol { name, span, first }) => {
            assert_eq!(name, "X");
            assert_eq!(span, sp(9));
            assert_eq!(first, sp(3));
        },
        other => panic!("unexpected {:?}", other),
    }
    assert!(matches!(assemble(&nodes), Err(Error::DuplicateSymbol { .. })));
}

#[test]
fn undefined_label_lists_known_labels() {
    let nodes = vec![
        orig("x3000"),
        label("A"),
        label("B"),
        ins(Instr::Br { flags: op("nzp"), target: op_at("MISSING", 4) }),
    ];
    match assemble(&nodes) {
        Err(Error::UndefinedSymbol { name, span, known }) => {
            assert_eq!(name, "MISSING");
            assert_eq!(span, sp(4));
            assert_eq!(known, vec!["A".to_string(), "B".to_string()]);
        },
        other => panic!("unexpected {:?}", other),
    }
}

#[test]
fn malformed_number_is_a_literal_error() {
    let nodes = vec![orig("x3000"), ins(Instr::AluImm { op: AluOp::Add, dr: op("R1"), sr1: op("R1"), imm: op_at("#1z", 5) })];
    match assemble(&nodes) {
        Err(Error::NumericLiteral { span }) => assert_eq!(span, sp(5)),
        other => panic!("unexpected {:?}", other),
    }
    let nodes = vec![orig("x3000"), Node::Blkw { count: op_at("ten", 2) }];
    assert!(matches!(first_pass(&nodes), Err(Error::NumericLiteral { span }) if span == sp(2)));
}

#[test]
fn invalid_escape_is_reported() {
    let nodes = vec![orig("x3000"), Node::Stringz { text: op_at("oops\\q", 8), span: sp(5) }];
    match first_pass(&nodes) {
        Err(Error::InvalidEscape { span }) => assert_eq!(span, sp(5)),
        other => panic!("unexpected {:?}", other),
    }
}

#[test]
fn immediate_and_register_overflow() {
    let nodes = vec![orig("x3000"), add_imm("R1", "R1", "#16")];
    assert!(matches!(assemble(&nodes), Err(Error::FieldOverflow { field: Field::Immediate, value: 16, .. })));
    let nodes = vec![orig("x3000"), add_imm("R1", "R1", "#-16")];
    assert_eq!(assemble(&nodes).unwrap(), words(&[0x3000, 0x1270]));
    let nodes = vec![orig("x3000"), add("R8", "R1", "R2")];
    assert!(matches!(
        assemble(&nodes),
        Err(Error::FieldOverflow { field: Field::DestinationRegister, value: 8, .. })
    ));
    let nodes = vec![orig("x3000"), fill("x8000")];
    assert!(matches!(assemble(&nodes), Err(Error::FieldOverflow { field: Field::FillContent, value: 32768, .. })));
}

#[test]
fn block_size_out_of_range() {
    let nodes = vec![orig("x3000"), Node::Blkw { count: op_at("#-1", 4) }];
    assert!(matches!(first_pass(&nodes), Err(Error::SizeOutOfRange { span }) if span == sp(4)));
    let nodes = vec![orig("x3000"), Node::Blkw { count: op("x10001") }];
    assert!(matches!(first_pass(&nodes), Err(Error::SizeOutOfRange { .. })));
    let nodes = vec![orig("x3000"), Node::Blkw { count: op("xFFFF") }, ins(Instr::Nop)];
    assert_eq!(first_pass(&nodes).unwrap().1, 0x10000);
}

#[test]
fn listing_pads_and_widens_addresses() {
    let nodes = vec![orig("x0"), label("b"), ins(Instr::Nop), label("a")];
    let (symbols, _) = first_pass(&nodes).unwrap();
    assert_eq!(
        table_to_string(&symbols, 0xFFFF),
        "//Symbol Name\t\tPage Address\n//----------------\t------------\n//\ta                       10000\n//\tb                       FFFF\n"
    );
    let empty = first_pass(&vec![orig("x0")]).unwrap().0;
    assert_eq!(table_to_string(&empty, 0), "//Symbol Name\t\tPage Address\n//----------------\t------------\n");
}

#[test]
fn trap_routine_vectors() {
    assert_eq!(TrapRoutine::Getc.vector(), 0x20);
    assert_eq!(TrapRoutine::Putsp.vector(), 0x24);
    assert_eq!(TrapRoutine::Halt.vector(), 0x25);
}

#[test]
fn adder_from_source() {
    let src = "\n.ORIG   x3000\n        AND     r0, r0, #0\n        ADD     r0, r0, #8\n        ADD     r0, r0, #8\n        OUT\n        HALT\n.END\n    ";
    let nodes = parse(src).unwrap();
    assert_eq!(assemble(&nodes).unwrap(), words(&[0x3000, 0x5020, 0x1028, 0x1028, 0xF021, 0xF025]));
}

#[test]
fn string_print_from_source() {
    let src = "\n.ORIG   x3000\n        LEA     r0, STZ\n        PUTS\n        HALT\nSTZ     .STRINGZ \"HELLO\\n\"\n.END\n    ";
    let nodes = parse(src).unwrap();
    assert_eq!(
        assemble(&nodes).unwrap(),
        words(&[0x3000, 0xE002, 0xF022, 0xF025, 0x48, 0x45, 0x4C, 0x4C, 0x4F, 0x0A, 0x00])
    );
}

#[test]
fn integer_division_from_source() {
    let src = "\n.ORIG\tx3000\n        LDI\tR0, NUM\t\t; R0 = NUM\n        LDI\tR1, DIV\n        NOT\tR1, R1\n        ADD\tR1, R1, #1\t; R1 = -DIV\n        AND\tR2, R2, #0\t; R2 = 0 (count)\nLOOP\tADD\tR3, R0, R1\n        BRn\tOUTL\t\t; DIVISION COMPLETE!\n        ADD\tR2, R2, #1\n        ADD\tR0, R3, #0\n        BR\tLOOP\nOUTL\tSTI\tR0, REM\n        STI\tR2, QTT\n        HALT\n\nNUM\t    .FILL x4000\nDIV\t    .FILL x4001\nQTT\t    .FILL x4002\nREM\t    .FILL x4003\n.END\n    ";
    let nodes = parse(src).unwrap();
    let a = assemble_from_pairs(&nodes).unwrap();
    assert_eq!(
        a.image,
        words(&[
            0x3000, 0xA00C, 0xA20C, 0x927F, 0x1261, 0x54A0, 0x1601, 0x0803, 0x14A1, 0x10E0, 0x0FFB,
            0xB005, 0xB403, 0xF025, 0x4000, 0x4001, 0x4002, 0x4003,
        ])
    );
    assert_eq!(a.warnings.len(), 1);
}

#[test]
fn parse_keeps_source_text_and_spans() {
    let src = "L1 add R1, R2, #-3 ; note\n.stringz \"a\\tb\"";
    let nodes = parse(src).unwrap();
    assert_eq!(nodes.len(), 4);
    match &nodes[0] {
        Node::LabelDecl { name, span } => {
            assert_eq!(name, "L1");
            assert_eq!(*span, Span { start: 0, end: 2 });
        },
        other => panic!("unexpected {:?}", other),
    }
    match &nodes[1] {
        Node::Instruction { instr: Instr::AluImm { op, imm, .. }, .. } => {
            assert_eq!(*op, AluOp::Add);
            assert_eq!(imm.text, "#-3");
            assert_eq!(imm.span, Span { start: 15, end: 18 });
        },
        other => panic!("unexpected {:?}", other),
    }
    match &nodes[2] {
        Node::Stringz { text, span } => {
            assert_eq!(text.text, "a\\tb");
            assert_eq!(*span, Span { start: 26, end: 41 });
        },
        other => panic!("unexpected {:?}", other),
    }
    assert!(matches!(nodes[3], Node::Eoi));
}

#[test]
fn parse_rejects_unknown_instruction() {
    assert!(matches!(parse("  FOO R1\n"), Err(Error::Syntax { .. })));
    assert!(matches!(parse("  ADD R1, R2\n"), Err(Error::Syntax { .. })));
}

#[test]
fn asm_parser_reads_source() {
    let nodes = lc3asm::AsmParser::parse(".ORIG x3000\nHALT\n").unwrap();
    assert_eq!(assemble(&nodes).unwrap(), words(&[0x3000, 0xF025]));
}

#[test]
fn line_column_counts_from_one() {
    assert_eq!(lc3asm::line_column("ab\ncd", 0), (1, 1));
    assert_eq!(lc3asm::line_column("ab\ncd", 4), (2, 2));
    assert_eq!(lc3asm::line_column("ab\ncd", 3), (2, 1));
}

#[test]
fn assemble_text_parses_then_assembles() {
    assert_eq!(assemble_text(".ORIG x3000\nADD R1, R1, #2\n").unwrap(), words(&[0x3000, 0x1262]));
    assert!(matches!(assemble_text("  ADD R1\n"), Err(Error::Syntax { .. })));
    assert!(matches!(assemble_text(".ORIG x3000\nBRz NOWHERE\n"), Err(Error::UndefinedSymbol { .. })));
}

#[test]
fn parse_lower_case_and_comments() {
    let nodes = parse("; only a comment\nloop brnzp loop ; back\n\n").unwrap();
    assert_eq!(nodes.len(), 3);
    assert!(matches!(&nodes[0], Node::LabelDecl { name, .. } if name == "loop"));
    match &nodes[1] {
        Node::Instruction { instr: Instr::Br { flags, target }, .. } => {
            assert_eq!(flags.text, "nzp");
            assert_eq!(target.text, "loop");
        },
        other => panic!("unexpected {:?}", other),
    }
}
