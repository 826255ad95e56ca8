//! The two passes: label resolution and encoding.
use vstd::prelude::*;
use crate::error::{Error, ErrorView, Field};
use crate::escape::{string_words, unescape_stringz, unescaped};
use crate::node::{Node, Span};
use crate::parser::{node_in, parse, parsed, shapes_of};
use crate::symbol_table::{find_symbol, SymbolTable, SymbolView};
use crate::util::{literal_value, parse_number_literal, parse_pc_pair, parse_register_literal, pc_target, register_value, PCOffsetTarget, PcTargetView};
use crate::node::{AluOp, BaseOp, Instr, Operand, PcOp};
use crate::symbol_table::symbol_names;
use crate::writer::{bits_bytes, bytes_bits, field_bits, fits_signed, fits_unsigned, BitVecWriter};
use vstd::arithmetic::power2::{lemma2_to64, lemma_pow2_strictly_increases, pow2};

verus! {

/// The most words an image can hold: the origin word and one word for each
/// 16-bit address.
pub const IMAGE_WORDS: usize = 65537;

/// What the first pass knows after a prefix of the nodes.
pub ghost struct Resolved {
    /// The labels declared so far, with their offsets.
    pub symbols: Seq<SymbolView>,
    /// The words emitted so far, origins not counted.
    pub offset: int,
    /// The origin directives seen so far.
    pub origins: int,
}

/// Adds `words` program words, unless the image would outgrow the address space.
pub open spec fn grow(st: Resolved, words: int, span: Span) -> Result<Resolved, ErrorView> {
    if st.offset + st.origins + words > IMAGE_WORDS {
        Err(ErrorView::SizeOutOfRange { span })
    } else {
        Ok(Resolved { offset: st.offset + words, ..st })
    }
}

/// The first pass over one node.
pub open spec fn resolve_step(st: Resolved, n: Node) -> Result<Resolved, ErrorView> {
    match n {
        Node::LabelDecl { name, span } => match find_symbol(st.symbols, name@) {
            Some(k) => Err(ErrorView::DuplicateSymbol { name: name@, span, first: st.symbols[k].2 }),
            None => Ok(Resolved { symbols: st.symbols.push((name@, st.offset, span)), ..st }),
        },
        Node::Instruction { span, .. } => grow(st, 1, span),
        Node::TrapCode { span, .. } => grow(st, 1, span),
        Node::Fill { value } => grow(st, 1, value.span),
        Node::Orig { value } => if st.offset + st.origins + 1 > IMAGE_WORDS {
            Err(ErrorView::SizeOutOfRange { span: value.span })
        } else {
            Ok(Resolved { origins: st.origins + 1, ..st })
        },
        Node::Blkw { count } => match literal_value(count.text@) {
            None => Err(ErrorView::NumericLiteral { span: count.span }),
            Some(v) => if v < 0 {
                Err(ErrorView::SizeOutOfRange { span: count.span })
            } else {
                grow(st, v, count.span)
            },
        },
        Node::Stringz { text, span } => match unescaped(text.text@) {
            None => Err(ErrorView::InvalidEscape { span }),
            Some(u) => grow(st, string_words(u).len() as int, text.span),
        },
        _ => Ok(st),
    }
}

/// The first pass over a sequence of nodes; it stops at the first error.
pub open spec fn resolve(nodes: Seq<Node>) -> Result<Resolved, ErrorView>
    decreases nodes.len(),
{
    if nodes.len() == 0 {
        Ok(Resolved { symbols: Seq::empty(), offset: 0, origins: 0 })
    } else {
        match resolve(nodes.drop_last()) {
            Ok(st) => resolve_step(st, nodes.last()),
            Err(e) => Err(e),
        }
    }
}

/// Once a prefix of the nodes fails the first pass, the whole sequence fails
/// with the same error.
pub proof fn lemma_resolve_err_prefix(nodes: Seq<Node>, i: int)
    requires
        0 <= i <= nodes.len(),
        resolve(nodes.take(i)) is Err,
    ensures
        resolve(nodes) == resolve(nodes.take(i)),
    decreases nodes.len() - i,
{
    if i < nodes.len() {
        assert(nodes.take(i + 1).drop_last() =~= nodes.take(i));
        lemma_resolve_err_prefix(nodes, i + 1);
    } else {
        assert(nodes.take(i) =~= nodes);
    }
}

/// The first pass: gives every label the number of words that precede it,
/// and counts the program's words.
pub fn first_pass(nodes: &Vec<Node>) -> (r: Result<(SymbolTable, usize), Error>)
    ensures
        match resolve(nodes@) {
            Ok(st) => r matches Ok(p) && p.0@ == st.symbols && p.1 == st.offset,
            Err(e) => r matches Err(x) && x@ == e,
        },
{
    let mut table = SymbolTable::new();
    let mut offset: usize = 0;
    let mut origins: usize = 0;
    let mut i: usize = 0;
    while i < nodes.len()
        invariant
            i <= nodes@.len(),
            offset + origins <= IMAGE_WORDS,
            resolve(nodes@.take(i as int)) == Ok::<Resolved, ErrorView>(
                Resolved { symbols: table@, offset: offset as int, origins: origins as int },
            ),
        decreases nodes@.len() - i,
    {
        assert(nodes@.take(i + 1).drop_last() =~= nodes@.take(i as int));
        let ghost st = Resolved { symbols: table@, offset: offset as int, origins: origins as int };
        let room: usize = IMAGE_WORDS - offset - origins;
        match &nodes[i] {
            Node::LabelDecl { name, span } => {
                match table.lookup(name) {
                    Some(k) => {
                        proof { crate::symbol_table::lemma_find_symbol(table@, name@); }
                        let first = table.get(k).span;
                        let e = Error::DuplicateSymbol { name: name.clone(), span: *span, first };
                        proof { lemma_resolve_err_prefix(nodes@, i + 1); }
                        return Err(e);
                    },
                    None => {
                        table.insert(name.clone(), offset, *span);
                    },
                }
            },
            Node::Instruction { span, .. } | Node::TrapCode { span, .. } => {
                if room < 1 {
                    proof { lemma_resolve_err_prefix(nodes@, i + 1); }
                    return Err(Error::SizeOutOfRange { span: *span });
                }
                offset = offset + 1;
            },
            Node::Fill { value } => {
                if room < 1 {
                    proof { lemma_resolve_err_prefix(nodes@, i + 1); }
                    return Err(Error::SizeOutOfRange { span: value.span });
                }
                offset = offset + 1;
            },
            Node::Orig { value } => {
                if room < 1 {
                    proof { lemma_resolve_err_prefix(nodes@, i + 1); }
                    return Err(Error::SizeOutOfRange { span: value.span });
                }
                origins = origins + 1;
            },
            Node::Blkw { count } => {
                match parse_number_literal(count.text.as_str()) {
                    Err(_) => {
                        proof { lemma_resolve_err_prefix(nodes@, i + 1); }
                    return Err(Error::NumericLiteral { span: count.span });
                    },
                    Ok(v) => {
                        if v < 0 || v > room as i64 {
                            proof { lemma_resolve_err_prefix(nodes@, i + 1); }
                    return Err(Error::SizeOutOfRange { span: count.span });
                        }
                        offset = offset + v as usize;
                    },
                }
            },
            Node::Stringz { text, span } => {
                match unescape_stringz(text.text.as_str()) {
                    None => {
                        proof { lemma_resolve_err_prefix(nodes@, i + 1); }
                    return Err(Error::InvalidEscape { span: *span });
                    },
                    Some(words) => {
                        if words.len() > room {
                            proof { lemma_resolve_err_prefix(nodes@, i + 1); }
                    return Err(Error::SizeOutOfRange { span: text.span });
                        }
                        offset = offset + words.len();
                    },
                }
            },
            _ => {},
        }
        i = i + 1;
    }
    assert(nodes@.take(nodes@.len() as int) =~= nodes@);
    Ok((table, offset))
}

/// One field of an instruction's encoding, over plain values.
pub ghost enum Part {
    /// A fixed pattern of `width` bits.
    Const { width: nat, value: int },
    /// A single bit.
    Bit { bit: bool },
    /// A register operand, in three bits.
    Reg { field: Field, text: Seq<char>, span: Span },
    /// A signed number literal in `width` bits.
    Num { field: Field, width: nat, text: Seq<char>, span: Span },
    /// A PC-relative offset in `width` bits: a literal, or the distance to a label.
    Pc { width: nat, text: Seq<char>, span: Span },
}

/// One field of an instruction's encoding, with its operand.
pub enum Piece<'a> {
    Const(u32, u32),
    Bit(bool),
    Reg(Field, &'a Operand),
    Num(Field, u32, &'a Operand),
    Pc(u32, &'a Operand),
}

impl<'a> View for Piece<'a> {
    type V = Part;

    open spec fn view(&self) -> Part {
        match *self {
            Piece::Const(w, v) => Part::Const { width: w as nat, value: v as int },
            Piece::Bit(b) => Part::Bit { bit: b },
            Piece::Reg(f, o) => Part::Reg { field: f, text: o.text@, span: o.span },
            Piece::Num(f, w, o) => Part::Num { field: f, width: w as nat, text: o.text@, span: o.span },
            Piece::Pc(w, o) => Part::Pc { width: w as nat, text: o.text@, span: o.span },
        }
    }
}

/// Whether the text holds the letter, in either case.
pub open spec fn has_letter(s: Seq<char>, lower: char, upper: char) -> bool {
    s.contains(lower) || s.contains(upper)
}

/// A branch with no condition letter is unconditional.
pub open spec fn implicit_unconditional(flags: Seq<char>) -> bool {
    !has_letter(flags, 'n', 'N') && !has_letter(flags, 'z', 'Z') && !has_letter(flags, 'p', 'P')
}

pub open spec fn alu_opcode(op: AluOp) -> int {
    match op {
        AluOp::Add => 0b0001,
        AluOp::And => 0b0101,
    }
}

pub open spec fn pc_opcode(op: PcOp) -> int {
    match op {
        PcOp::Ld => 0b0010,
        PcOp::Ldi => 0b1010,
        PcOp::Lea => 0b1110,
        PcOp::St => 0b0011,
        PcOp::Sti => 0b1011,
    }
}

pub open spec fn base_opcode(op: BaseOp) -> int {
    match op {
        BaseOp::Ldr => 0b0110,
        BaseOp::Str => 0b0111,
    }
}

pub open spec fn reg(field: Field, o: Operand) -> Part {
    Part::Reg { field, text: o.text@, span: o.span }
}

/// The fields of an instruction's encoding, most significant first.
pub open spec fn instr_parts(i: Instr) -> Seq<Part> {
    match i {
        Instr::Alu { op, dr, sr1, sr2 } => seq![
            Part::Const { width: 4, value: alu_opcode(op) },
            reg(Field::DestinationRegister, dr),
            reg(Field::SourceRegister1, sr1),
            Part::Const { width: 3, value: 0 },
            reg(Field::SourceRegister2, sr2),
        ],
        Instr::AluImm { op, dr, sr1, imm } => seq![
            Part::Const { width: 4, value: alu_opcode(op) },
            reg(Field::DestinationRegister, dr),
            reg(Field::SourceRegister1, sr1),
            Part::Bit { bit: true },
            Part::Num { field: Field::Immediate, width: 5, text: imm.text@, span: imm.span },
        ],
        Instr::Not { dr, sr } => seq![
            Part::Const { width: 4, value: 0b1001 },
            reg(Field::DestinationRegister, dr),
            reg(Field::SourceRegister, sr),
            Part::Const { width: 6, value: 0b111111 },
        ],
        Instr::Br { flags, target } => {
            let u = implicit_unconditional(flags.text@);
            seq![
                Part::Const { width: 4, value: 0b0000 },
                Part::Bit { bit: u || has_letter(flags.text@, 'n', 'N') },
                Part::Bit { bit: u || has_letter(flags.text@, 'z', 'Z') },
                Part::Bit { bit: u || has_letter(flags.text@, 'p', 'P') },
                Part::Pc { width: 9, text: target.text@, span: target.span },
            ]
        },
        Instr::Jmp { base } => seq![
            Part::Const { width: 7, value: 0b1100000 },
            reg(Field::BaseRegister, base),
            Part::Const { width: 6, value: 0 },
        ],
        Instr::Jsr { target } => seq![
            Part::Const { width: 5, value: 0b01001 },
            Part::Pc { width: 11, text: target.text@, span: target.span },
        ],
        Instr::Jsrr { base } => seq![
            Part::Const { width: 7, value: 0b0100000 },
            reg(Field::BaseRegister, base),
            Part::Const { width: 6, value: 0 },
        ],
        Instr::PcRel { op, reg: r, target } => seq![
            Part::Const { width: 4, value: pc_opcode(op) },
            reg(Field::DestinationOrSourceRegister, r),
            Part::Pc { width: 9, text: target.text@, span: target.span },
        ],
        Instr::BaseRel { op, reg: r, base, offset } => seq![
            Part::Const { width: 4, value: base_opcode(op) },
            reg(Field::DestinationOrSourceRegister, r),
            reg(Field::BaseRegister, base),
            Part::Num { field: Field::Offset, width: 6, text: offset.text@, span: offset.span },
        ],
        Instr::Ret => seq![Part::Const { width: 16, value: 0b1100_000_111_000000 }],
        Instr::Rti => seq![Part::Const { width: 16, value: 0b1000_0000_0000_0000 }],
        Instr::Trap { vector } => seq![
            Part::Const { width: 8, value: 0b1111_0000 },
            Part::Num { field: Field::TrapVector, width: 8, text: vector.text@, span: vector.span },
        ],
        Instr::Nop => seq![Part::Const { width: 16, value: 0 }],
    }
}

/// A signed value in a field of `width` bits, or the overflow it causes.
pub open spec fn signed_field(field: Field, width: nat, v: int, span: Span) -> Result<Seq<bool>, ErrorView> {
    if fits_signed(width, v) {
        Ok(field_bits(width, v))
    } else {
        Err(ErrorView::FieldOverflow { field, value: v, span })
    }
}

/// The PC-relative offset from the instruction at word `current` to the
/// word at `target`: the PC has already moved past the instruction.
pub open spec fn pc_offset(target: int, current: int) -> int {
    target - current - 1
}

/// The bits of one field, given the symbol table and the offset of the
/// instruction it belongs to.
pub open spec fn part_bits(p: Part, syms: Seq<SymbolView>, current: int) -> Result<Seq<bool>, ErrorView> {
    match p {
        Part::Const { width, value } => Ok(field_bits(width, value)),
        Part::Bit { bit } => Ok(seq![bit]),
        Part::Reg { field, text, span } => match register_value(text) {
            None => Err(ErrorView::NumericLiteral { span }),
            Some(v) => if fits_unsigned(3, v) {
                Ok(field_bits(3, v))
            } else {
                Err(ErrorView::FieldOverflow { field, value: v, span })
            },
        },
        Part::Num { field, width, text, span } => match literal_value(text) {
            None => Err(ErrorView::NumericLiteral { span }),
            Some(v) => signed_field(field, width, v, span),
        },
        Part::Pc { width, text, span } => match pc_target(text) {
            None => Err(ErrorView::NumericLiteral { span }),
            Some(PcTargetView::Offset(v)) => signed_field(Field::PcOffset, width, v, span),
            Some(PcTargetView::Symbol(name)) => match find_symbol(syms, name) {
                None => Err(ErrorView::UndefinedSymbol { name, span, known: symbol_names(syms) }),
                Some(k) => signed_field(Field::PcOffset, width, pc_offset(syms[k].1, current), span),
            },
        },
    }
}

/// The bits of a sequence of fields; it stops at the first error.
pub open spec fn parts_bits(ps: Seq<Part>, syms: Seq<SymbolView>, current: int) -> Result<Seq<bool>, ErrorView>
    decreases ps.len(),
{
    if ps.len() == 0 {
        Ok(Seq::empty())
    } else {
        match parts_bits(ps.drop_last(), syms, current) {
            Err(e) => Err(e),
            Ok(b) => match part_bits(ps.last(), syms, current) {
                Err(e) => Err(e),
                Ok(c) => Ok(b + c),
            },
        }
    }
}

/// The widths that the writer accepts.
pub open spec fn part_ok(p: Part) -> bool {
    match p {
        Part::Const { width, value } => 1 <= width <= 16 && fits_unsigned(width, value),
        Part::Num { width, .. } => 2 <= width <= 16,
        Part::Pc { width, .. } => 2 <= width <= 16,
        _ => true,
    }
}

/// The fields of an instruction.
pub fn instr_layout<'a>(i: &'a Instr) -> (r: Vec<Piece<'a>>)
    ensures
        r@.map_values(|p: Piece<'a>| p@) == instr_parts(*i),
        r@.len() <= 5,
        forall|k: int| 0 <= k < r@.len() ==> part_ok(#[trigger] r@[k]@),
{
    proof { lemma2_to64(); }
    let r = match i {
        Instr::Alu { op, dr, sr1, sr2 } => vec![
            Piece::Const(4, match op { AluOp::Add => 0b0001, AluOp::And => 0b0101 }),
            Piece::Reg(Field::DestinationRegister, dr),
            Piece::Reg(Field::SourceRegister1, sr1),
            Piece::Const(3, 0),
            Piece::Reg(Field::SourceRegister2, sr2),
        ],
        Instr::AluImm { op, dr, sr1, imm } => vec![
            Piece::Const(4, match op { AluOp::Add => 0b0001, AluOp::And => 0b0101 }),
            Piece::Reg(Field::DestinationRegister, dr),
            Piece::Reg(Field::SourceRegister1, sr1),
            Piece::Bit(true),
            Piece::Num(Field::Immediate, 5, imm),
        ],
        Instr::Not { dr, sr } => vec![
            Piece::Const(4, 0b1001),
            Piece::Reg(Field::DestinationRegister, dr),
            Piece::Reg(Field::SourceRegister, sr),
            Piece::Const(6, 0b111111),
        ],
        Instr::Br { flags, target } => {
            let n = has_letter_exec(flags.text.as_str(), 'n', 'N');
            let z = has_letter_exec(flags.text.as_str(), 'z', 'Z');
            let p = has_letter_exec(flags.text.as_str(), 'p', 'P');
            let u = !n && !z && !p;
            vec![
                Piece::Const(4, 0b0000),
                Piece::Bit(u || n),
                Piece::Bit(u || z),
                Piece::Bit(u || p),
                Piece::Pc(9, target),
            ]
        },
        Instr::Jmp { base } => vec![
            Piece::Const(7, 0b1100000),
            Piece::Reg(Field::BaseRegister, base),
            Piece::Const(6, 0),
        ],
        Instr::Jsr { target } => vec![Piece::Const(5, 0b01001), Piece::Pc(11, target)],
        Instr::Jsrr { base } => vec![
            Piece::Const(7, 0b0100000),
            Piece::Reg(Field::BaseRegister, base),
            Piece::Const(6, 0),
        ],
        Instr::PcRel { op, reg, target } => vec![
            Piece::Const(4, match op {
                PcOp::Ld => 0b0010,
                PcOp::Ldi => 0b1010,
                PcOp::Lea => 0b1110,
                PcOp::St => 0b0011,
                PcOp::Sti => 0b1011,
            }),
            Piece::Reg(Field::DestinationOrSourceRegister, reg),
            Piece::Pc(9, target),
        ],
        Instr::BaseRel { op, reg, base, offset } => vec![
            Piece::Const(4, match op { BaseOp::Ldr => 0b0110, BaseOp::Str => 0b0111 }),
            Piece::Reg(Field::DestinationOrSourceRegister, reg),
            Piece::Reg(Field::BaseRegister, base),
            Piece::Num(Field::Offset, 6, offset),
        ],
        Instr::Ret => vec![Piece::Const(16, 0b1100_000_111_000000)],
        Instr::Rti => vec![Piece::Const(16, 0b1000_0000_0000_0000)],
        Instr::Trap { vector } => vec![
            Piece::Const(8, 0b1111_0000),
            Piece::Num(Field::TrapVector, 8, vector),
        ],
        Instr::Nop => vec![Piece::Const(16, 0)],
    };
    assert(r@.map_values(|p: Piece<'a>| p@) =~= instr_parts(*i));
    r
}

/// The bounds that the encoder's arithmetic needs: the instruction's offset
/// and every label's offset lie within the image.
pub open spec fn offsets_in_image(syms: Seq<SymbolView>, current: int) -> bool {
    &&& 0 <= current <= IMAGE_WORDS
    &&& forall|k: int| 0 <= k < syms.len() ==> 0 <= #[trigger] syms[k].1 <= IMAGE_WORDS
}

proof fn lemma_signed_bound(width: nat)
    requires
        2 <= width <= 16,
    ensures
        pow2((width - 1) as nat) <= 32768,
        pow2((width - 1) as nat) >= 2,
{
    lemma2_to64();
    if width - 1 < 15 {
        lemma_pow2_strictly_increases((width - 1) as nat, 15);
    }
    if width - 1 > 1 {
        lemma_pow2_strictly_increases(1, (width - 1) as nat);
    }
}

/// Writes a signed value in `width` bits, or reports the overflow.
fn write_signed_field(wr: &mut BitVecWriter, field: Field, width: u32, v: i64, span: Span) -> (r: Result<(), Error>)
    requires
        old(wr).wf(),
        old(wr)@.len() + 16 <= u32::MAX,
        2 <= width <= 16,
    ensures
        final(wr).wf(),
        final(wr).initial() == old(wr).initial(),
        match signed_field(field, width as nat, v as int, span) {
            Ok(b) => r is Ok && final(wr)@ == old(wr)@ + b,
            Err(e) => r matches Err(x) && x@ == e,
        },
{
    proof { lemma_signed_bound(width as nat); }
    if v < -32768 || v > 32767 {
        return Err(Error::FieldOverflow { field, value: v, span });
    }
    match wr.write_signed(width, v as i32) {
        Ok(()) => Ok(()),
        Err(_) => Err(Error::FieldOverflow { field, value: v, span }),
    }
}

/// Writes one field of an instruction.
fn write_part(p: &Piece, wr: &mut BitVecWriter, symbols: &SymbolTable, current: usize) -> (r: Result<(), Error>)
    requires
        old(wr).wf(),
        old(wr)@.len() + 16 <= u32::MAX,
        part_ok(p@),
        offsets_in_image(symbols@, current as int),
    ensures
        final(wr).wf(),
        final(wr).initial() == old(wr).initial(),
        match part_bits(p@, symbols@, current as int) {
            Ok(b) => r is Ok && final(wr)@ == old(wr)@ + b && b.len() <= 16,
            Err(e) => r matches Err(x) && x@ == e,
        },
{
    proof { lemma2_to64(); }
    match p {
        Piece::Const(width, value) => {
            let _ = wr.write(*width, *value);
            Ok(())
        },
        Piece::Bit(bit) => {
            let _ = wr.write_bit(*bit);
            assert(old(wr)@.push(*bit) =~= old(wr)@ + seq![*bit]);
            Ok(())
        },
        Piece::Reg(field, o) => {
            match parse_register_literal(o.text.as_str()) {
                Err(_) => Err(Error::NumericLiteral { span: o.span }),
                Ok(v) => {
                    if v < 0 || v > 0xFFFF_FFFF {
                        return Err(Error::FieldOverflow { field: *field, value: v, span: o.span });
                    }
                    match wr.write(3, v as u32) {
                        Ok(()) => Ok(()),
                        Err(_) => Err(Error::FieldOverflow { field: *field, value: v, span: o.span }),
                    }
                },
            }
        },
        Piece::Num(field, width, o) => {
            match parse_number_literal(o.text.as_str()) {
                Err(_) => Err(Error::NumericLiteral { span: o.span }),
                Ok(v) => write_signed_field(wr, *field, *width, v, o.span),
            }
        },
        Piece::Pc(width, o) => {
            match parse_pc_pair(o.text.as_str()) {
                Err(_) => Err(Error::NumericLiteral { span: o.span }),
                Ok(PCOffsetTarget::ExplicitOffset(v)) => write_signed_field(wr, Field::PcOffset, *width, v, o.span),
                Ok(PCOffsetTarget::Symbol(name)) => {
                    match symbols.lookup(&name) {
                        None => Err(Error::UndefinedSymbol { name, span: o.span, known: symbols.names() }),
                        Some(k) => {
                            proof { crate::symbol_table::lemma_find_symbol(symbols@, name@); }
                            let target = symbols.get(k).offset;
                            let d: i64 = target as i64 - current as i64 - 1;
                            write_signed_field(wr, Field::PcOffset, *width, d, o.span)
                        },
                    }
                },
            }
        },
    }
}

/// Encodes one instruction.
fn write_instr(i: &Instr, wr: &mut BitVecWriter, symbols: &SymbolTable, current: usize) -> (r: Result<(), Error>)
    requires
        old(wr).wf(),
        old(wr)@.len() + 16 * 6 <= u32::MAX,
        offsets_in_image(symbols@, current as int),
    ensures
        final(wr).wf(),
        final(wr).initial() == old(wr).initial(),
        match parts_bits(instr_parts(*i), symbols@, current as int) {
            Ok(b) => r is Ok && final(wr)@ == old(wr)@ + b,
            Err(e) => r matches Err(x) && x@ == e,
        },
{
    let pieces = instr_layout(i);
    let ghost ps = instr_parts(*i);
    let mut k: usize = 0;
    while k < pieces.len()
        invariant
            k <= pieces@.len() <= 5,
            pieces@.map_values(|p: Piece| p@) == ps,
            ps == instr_parts(*i),
            forall|j: int| 0 <= j < pieces@.len() ==> part_ok(#[trigger] pieces@[j]@),
            offsets_in_image(symbols@, current as int),
            wr.wf(),
            wr.initial() == old(wr).initial(),
            old(wr)@.len() + 16 * 6 <= u32::MAX,
            parts_bits(ps.take(k as int), symbols@, current as int) matches Ok(b) && wr@ == old(wr)@ + b
                && b.len() <= 16 * k,
        decreases pieces@.len() - k,
    {
        assert(ps.take(k + 1).drop_last() =~= ps.take(k as int));
        assert(ps.take(k + 1).last() == pieces@[k as int]@);
        let res = write_part(&pieces[k], wr, symbols, current);
        match res {
            Err(e) => {
                proof {
                    assert(parts_bits(ps.take(k + 1), symbols@, current as int) == Err::<Seq<bool>, ErrorView>(e@));
                    lemma_parts_err_prefix(ps, symbols@, current as int, k + 1);
                }
                return Err(e);
            },
            Ok(()) => {
                assert(parts_bits(ps.take(k + 1), symbols@, current as int) matches Ok(b) && wr@ =~= old(wr)@ + b);
            },
        }
        k = k + 1;
    }
    assert(ps.take(k as int) =~= ps);
    Ok(())
}

/// Once a prefix of the fields fails, the whole sequence fails with the same error.
proof fn lemma_parts_err_prefix(ps: Seq<Part>, syms: Seq<SymbolView>, current: int, i: int)
    requires
        0 <= i <= ps.len(),
        parts_bits(ps.take(i), syms, current) is Err,
    ensures
        parts_bits(ps, syms, current) == parts_bits(ps.take(i), syms, current),
    decreases ps.len() - i,
{
    if i < ps.len() {
        assert(ps.take(i + 1).drop_last() =~= ps.take(i));
        lemma_parts_err_prefix(ps, syms, current, i + 1);
    } else {
        assert(ps.take(i) =~= ps);
    }
}

/// The bits of a run of 16-bit words, each most significant bit first.
pub open spec fn words_bits(ws: Seq<u16>) -> Seq<bool>
    decreases ws.len(),
{
    if ws.len() == 0 {
        Seq::empty()
    } else {
        words_bits(ws.drop_last()) + field_bits(16, ws.last() as int)
    }
}

/// `n` zero words.
pub open spec fn zero_words(n: nat) -> Seq<u16> {
    Seq::new(n, |i: int| 0u16)
}

/// The second pass over one node: the bits it emits, given the symbol table
/// and the number of words emitted before it (the origin not counted).
pub open spec fn node_bits(n: Node, syms: Seq<SymbolView>, current: int) -> Result<Seq<bool>, ErrorView> {
    match n {
        Node::Instruction { instr, .. } => parts_bits(instr_parts(instr), syms, current),
        Node::TrapCode { routine, .. } => Ok(field_bits(8, 0b1111_0000) + field_bits(8, routine.spec_vector() as int)),
        Node::Orig { value } => match literal_value(value.text@) {
            None => Err(ErrorView::NumericLiteral { span: value.span }),
            Some(v) => if fits_unsigned(16, v) {
                Ok(field_bits(16, v))
            } else {
                Err(ErrorView::FieldOverflow { field: Field::Origin, value: v, span: value.span })
            },
        },
        Node::Fill { value } => match literal_value(value.text@) {
            None => Err(ErrorView::NumericLiteral { span: value.span }),
            Some(v) => signed_field(Field::FillContent, 16, v, value.span),
        },
        Node::Blkw { count } => match literal_value(count.text@) {
            None => Err(ErrorView::NumericLiteral { span: count.span }),
            Some(v) => if v < 0 || v > IMAGE_WORDS {
                Err(ErrorView::SizeOutOfRange { span: count.span })
            } else {
                Ok(words_bits(zero_words(v as nat)))
            },
        },
        Node::Stringz { text, span } => match unescaped(text.text@) {
            None => Err(ErrorView::InvalidEscape { span }),
            Some(u) => if string_words(u).len() > IMAGE_WORDS {
                Err(ErrorView::SizeOutOfRange { span: text.span })
            } else {
                Ok(words_bits(string_words(u)))
            },
        },
        _ => Ok(Seq::empty()),
    }
}

/// The program words a node occupies, given the bits it emitted: none for
/// an origin.
pub open spec fn node_advance(n: Node, bits: Seq<bool>) -> int {
    match n {
        Node::Orig { .. } => 0,
        _ => bits.len() as int / 16,
    }
}

/// The advisory notes for a node: a branch without condition letters.
pub open spec fn node_warnings(n: Node) -> Seq<Span> {
    match n {
        Node::Instruction { instr: Instr::Br { flags, .. }, span } => if implicit_unconditional(flags.text@) {
            seq![span]
        } else {
            Seq::empty()
        },
        _ => Seq::empty(),
    }
}

proof fn lemma_words_bits_push(ws: Seq<u16>, w: u16)
    ensures
        words_bits(ws.push(w)) == words_bits(ws) + field_bits(16, w as int),
{
    assert(ws.push(w).drop_last() =~= ws);
}

/// Writes 16-bit words.
fn write_words(wr: &mut BitVecWriter, ws: &Vec<u16>)
    requires
        old(wr).wf(),
        old(wr)@.len() + 16 * ws@.len() <= u32::MAX,
    ensures
        final(wr).wf(),
        final(wr).initial() == old(wr).initial(),
        final(wr)@ == old(wr)@ + words_bits(ws@),
{
    proof { lemma2_to64(); }
    let mut i: usize = 0;
    while i < ws.len()
        invariant
            i <= ws@.len(),
            wr.wf(),
            wr.initial() == old(wr).initial(),
            old(wr)@.len() + 16 * ws@.len() <= u32::MAX,
            wr@ == old(wr)@ + words_bits(ws@.take(i as int)),
            wr@.len() == old(wr)@.len() + 16 * i,
            pow2(16) == 0x10000,
        decreases ws@.len() - i,
    {
        let _ = wr.write(16, ws[i] as u32);
        proof {
            lemma_words_bits_push(ws@.take(i as int), ws@[i as int]);
            assert(ws@.take(i + 1) =~= ws@.take(i as int).push(ws@[i as int]));
        }
        i = i + 1;
    }
    assert(ws@.take(i as int) =~= ws@);
}

/// Writes `n` zero words.
fn write_zero_words(wr: &mut BitVecWriter, n: usize)
    requires
        old(wr).wf(),
        old(wr)@.len() + 16 * n <= u32::MAX,
    ensures
        final(wr).wf(),
        final(wr).initial() == old(wr).initial(),
        final(wr)@ == old(wr)@ + words_bits(zero_words(n as nat)),
{
    proof { lemma2_to64(); }
    let mut i: usize = 0;
    while i < n
        invariant
            i <= n,
            wr.wf(),
            wr.initial() == old(wr).initial(),
            old(wr)@.len() + 16 * n <= u32::MAX,
            wr@ == old(wr)@ + words_bits(zero_words(i as nat)),
            wr@.len() == old(wr)@.len() + 16 * i,
            pow2(16) == 0x10000,
        decreases n - i,
    {
        let _ = wr.write(16, 0);
        proof {
            lemma_words_bits_push(zero_words(i as nat), 0u16);
            assert(zero_words((i + 1) as nat) =~= zero_words(i as nat).push(0u16));
        }
        i = i + 1;
    }
}

/// The second pass over one node: writes its encoding, given the symbol
/// table and the number of words emitted before it (the origin not counted).
/// A branch without condition letters adds a note to `warnings`.
pub fn second_pass(
    node: &Node,
    wr: &mut BitVecWriter,
    symbols: &SymbolTable,
    current: usize,
    warnings: &mut Vec<Span>,
) -> (r: Result<(), Error>)
    requires
        old(wr).wf(),
        old(wr)@.len() + 16 * IMAGE_WORDS <= u32::MAX,
        offsets_in_image(symbols@, current as int),
    ensures
        final(wr).wf(),
        final(wr).initial() == old(wr).initial(),
        final(warnings)@ == old(warnings)@ + node_warnings(*node),
        match node_bits(*node, symbols@, current as int) {
            Ok(b) => r is Ok && final(wr)@ == old(wr)@ + b,
            Err(e) => r matches Err(x) && x@ == e,
        },
{
    proof { lemma2_to64(); }
    match node {
        Node::Instruction { instr, span } => {
            if let Instr::Br { flags, .. } = instr {
                let s = flags.text.as_str();
                if !has_letter_exec(s, 'n', 'N') && !has_letter_exec(s, 'z', 'Z') && !has_letter_exec(s, 'p', 'P') {
                    warnings.push(*span);
                }
            }
            assert(final(warnings)@ =~= old(warnings)@ + node_warnings(*node));
            write_instr(instr, wr, symbols, current)
        },
        Node::TrapCode { routine, .. } => {
            let _ = wr.write(8, 0b1111_0000);
            let _ = wr.write(8, routine.vector() as u32);
            assert(warnings@ =~= old(warnings)@ + node_warnings(*node));
            Ok(())
        },
        Node::Orig { value } => {
            assert(warnings@ =~= old(warnings)@ + node_warnings(*node));
            match parse_number_literal(value.text.as_str()) {
                Err(_) => Err(Error::NumericLiteral { span: value.span }),
                Ok(v) => {
                    if v < 0 || v > 0xFFFF_FFFF {
                        return Err(Error::FieldOverflow { field: Field::Origin, value: v, span: value.span });
                    }
                    match wr.write(16, v as u32) {
                        Ok(()) => Ok(()),
                        Err(_) => Err(Error::FieldOverflow { field: Field::Origin, value: v, span: value.span }),
                    }
                },
            }
        },
        Node::Fill { value } => {
            assert(warnings@ =~= old(warnings)@ + node_warnings(*node));
            match parse_number_literal(value.text.as_str()) {
                Err(_) => Err(Error::NumericLiteral { span: value.span }),
                Ok(v) => write_signed_field(wr, Field::FillContent, 16, v, value.span),
            }
        },
        Node::Blkw { count } => {
            assert(warnings@ =~= old(warnings)@ + node_warnings(*node));
            match parse_number_literal(count.text.as_str()) {
                Err(_) => Err(Error::NumericLiteral { span: count.span }),
                Ok(v) => {
                    if v < 0 || v > IMAGE_WORDS as i64 {
                        return Err(Error::SizeOutOfRange { span: count.span });
                    }
                    write_zero_words(wr, v as usize);
                    Ok(())
                },
            }
        },
        Node::Stringz { text, span } => {
            assert(warnings@ =~= old(warnings)@ + node_warnings(*node));
            match unescape_stringz(text.text.as_str()) {
                None => Err(Error::InvalidEscape { span: *span }),
                Some(words) => {
                    if words.len() > IMAGE_WORDS {
                        return Err(Error::SizeOutOfRange { span: text.span });
                    }
                    write_words(wr, &words);
                    Ok(())
                },
            }
        },
        _ => {
            assert(warnings@ =~= old(warnings)@ + node_warnings(*node));
            assert(wr@ =~= old(wr)@ + Seq::<bool>::empty());
            Ok(())
        },
    }
}

/// The second pass over a sequence of nodes: the bits emitted and the words
/// counted (origins not counted); it stops at the first error.
pub open spec fn encode(nodes: Seq<Node>, syms: Seq<SymbolView>) -> Result<(Seq<bool>, int), ErrorView>
    decreases nodes.len(),
{
    if nodes.len() == 0 {
        Ok((Seq::empty(), 0))
    } else {
        match encode(nodes.drop_last(), syms) {
            Err(e) => Err(e),
            Ok((b, current)) => match node_bits(nodes.last(), syms, current) {
                Err(e) => Err(e),
                Ok(c) => Ok((b + c, current + node_advance(nodes.last(), c))),
            },
        }
    }
}

/// The notes for a sequence of nodes.
pub open spec fn all_warnings(nodes: Seq<Node>) -> Seq<Span>
    decreases nodes.len(),
{
    if nodes.len() == 0 {
        Seq::empty()
    } else {
        all_warnings(nodes.drop_last()) + node_warnings(nodes.last())
    }
}

/// The object image of a program: both passes, then the bits as bytes.
pub open spec fn assembled(nodes: Seq<Node>) -> Result<Seq<u8>, ErrorView> {
    match resolve(nodes) {
        Err(e) => Err(e),
        Ok(st) => match encode(nodes, st.symbols) {
            Err(e) => Err(e),
            Ok((b, _)) => Ok(bits_bytes(b)),
        },
    }
}

/// The number of bits a field takes.
pub open spec fn part_width(p: Part) -> nat {
    match p {
        Part::Const { width, .. } => width,
        Part::Bit { .. } => 1,
        Part::Reg { .. } => 3,
        Part::Num { width, .. } => width,
        Part::Pc { width, .. } => width,
    }
}

pub open spec fn parts_width(ps: Seq<Part>) -> nat
    decreases ps.len(),
{
    if ps.len() == 0 {
        0
    } else {
        parts_width(ps.drop_last()) + part_width(ps.last())
    }
}

pub proof fn lemma_parts_len(ps: Seq<Part>, syms: Seq<SymbolView>, current: int)
    ensures
        parts_bits(ps, syms, current) matches Ok(b) ==> b.len() == parts_width(ps),
    decreases ps.len(),
{
    if ps.len() > 0 {
        lemma_parts_len(ps.drop_last(), syms, current);
    }
}

/// Every instruction is one 16-bit word.
pub proof fn lemma_instr_width(i: Instr)
    ensures
        parts_width(instr_parts(i)) == 16,
{
    reveal_with_fuel(parts_width, 6);
}

pub proof fn lemma_words_bits_len(ws: Seq<u16>)
    ensures
        words_bits(ws).len() == 16 * ws.len(),
    decreases ws.len(),
{
    if ws.len() > 0 {
        lemma_words_bits_len(ws.drop_last());
    }
}

/// Each node emits 16 bits for every word that the first pass counts for it.
pub proof fn lemma_node_len(n: Node, st: Resolved, syms: Seq<SymbolView>, current: int)
    requires
        resolve_step(st, n) is Ok,
        node_bits(n, syms, current) is Ok,
    ensures
        ({
            let st2 = resolve_step(st, n)->Ok_0;
            let c = node_bits(n, syms, current)->Ok_0;
            &&& node_advance(n, c) == st2.offset - st.offset
            &&& c.len() == 16 * ((st2.offset + st2.origins) - (st.offset + st.origins))
            &&& st2.symbols.len() >= st.symbols.len()
        }),
{
    match n {
        Node::Instruction { instr, .. } => {
            lemma_parts_len(instr_parts(instr), syms, current);
            lemma_instr_width(instr);
        },
        Node::Blkw { count } => {
            let v = literal_value(count.text@).unwrap();
            lemma_words_bits_len(zero_words(v as nat));
        },
        Node::Stringz { text, span } => {
            lemma_words_bits_len(string_words(unescaped(text.text@).unwrap()));
        },
        _ => {},
    }
}

/// What holds of every first-pass result: the counts stay within the image,
/// every label lies within the program, and no label is declared twice.
pub proof fn lemma_resolve_bounds(nodes: Seq<Node>)
    requires
        resolve(nodes) is Ok,
    ensures
        ({
            let st = resolve(nodes)->Ok_0;
            &&& 0 <= st.offset
            &&& 0 <= st.origins
            &&& st.offset + st.origins <= IMAGE_WORDS
            &&& forall|k: int| 0 <= k < st.symbols.len() ==> 0 <= #[trigger] st.symbols[k].1 <= st.offset
            &&& crate::symbol_table::names_unique(st.symbols)
        }),
    decreases nodes.len(),
{
    if nodes.len() > 0 {
        lemma_resolve_bounds(nodes.drop_last());
        let st = resolve(nodes.drop_last())->Ok_0;
        if let Node::LabelDecl { name, span } = nodes.last() {
            crate::symbol_table::lemma_find_symbol(st.symbols, name@);
        }
    }
}

/// Where the whole sequence passes the first pass, so does every prefix.
pub proof fn lemma_resolve_ok_prefix(nodes: Seq<Node>, i: int)
    requires
        0 <= i <= nodes.len(),
        resolve(nodes) is Ok,
    ensures
        resolve(nodes.take(i)) is Ok,
{
    if resolve(nodes.take(i)) is Err {
        lemma_resolve_err_prefix(nodes, i);
    }
}

/// Once a prefix of the nodes fails the second pass, the whole sequence fails
/// with the same error.
pub proof fn lemma_encode_err_prefix(nodes: Seq<Node>, syms: Seq<SymbolView>, i: int)
    requires
        0 <= i <= nodes.len(),
        encode(nodes.take(i), syms) is Err,
    ensures
        encode(nodes, syms) == encode(nodes.take(i), syms),
    decreases nodes.len() - i,
{
    if i < nodes.len() {
        assert(nodes.take(i + 1).drop_last() =~= nodes.take(i));
        lemma_encode_err_prefix(nodes, syms, i + 1);
    } else {
        assert(nodes.take(i) =~= nodes);
    }
}

/// The two passes agree: where both succeed on a prefix, the second pass has
/// counted exactly the words that the first pass counted, and has emitted 16
/// bits for every word of the image so far.
pub proof fn lemma_passes_agree(nodes: Seq<Node>, syms: Seq<SymbolView>)
    requires
        resolve(nodes) is Ok,
        encode(nodes, syms) is Ok,
    ensures
        encode(nodes, syms)->Ok_0.1 == resolve(nodes)->Ok_0.offset,
        encode(nodes, syms)->Ok_0.0.len() == 16 * (resolve(nodes)->Ok_0.offset + resolve(nodes)->Ok_0.origins),
    decreases nodes.len(),
{
    if nodes.len() > 0 {
        lemma_passes_agree(nodes.drop_last(), syms);
        let st = resolve(nodes.drop_last())->Ok_0;
        let cur = encode(nodes.drop_last(), syms)->Ok_0.1;
        lemma_node_len(nodes.last(), st, syms, cur);
    }
}

/// The result of a successful assembly.
pub struct Assembly {
    /// The object image: the origin word, then every program word, big-endian.
    pub image: Vec<u8>,
    /// The labels, in declaration order.
    pub symbols: SymbolTable,
    /// Branches written without condition letters.
    pub warnings: Vec<Span>,
}

/// Assembles a program: resolves its labels, then encodes every node.
pub fn assemble_from_pairs(nodes: &Vec<Node>) -> (r: Result<Assembly, Error>)
    ensures
        match assembled(nodes@) {
            Ok(image) => r matches Ok(a) && a.image@ == image && a.symbols@ == resolve(nodes@)->Ok_0.symbols
                && a.warnings@ == all_warnings(nodes@),
            Err(e) => r matches Err(x) && x@ == e,
        },
{
    let (symbols, size) = match first_pass(nodes) {
        Ok(p) => p,
        Err(e) => return Err(e),
    };
    proof { lemma_resolve_bounds(nodes@); }
    let ghost st = resolve(nodes@)->Ok_0;
    let mut wr = BitVecWriter::new(Vec::new());
    let mut warnings: Vec<Span> = Vec::new();
    let mut current: usize = 0;
    let mut i: usize = 0;
    while i < nodes.len()
        invariant
            i <= nodes@.len(),
            resolve(nodes@) == Ok::<Resolved, ErrorView>(st),
            symbols@ == st.symbols,
            forall|k: int| 0 <= k < st.symbols.len() ==> 0 <= #[trigger] st.symbols[k].1 <= st.offset,
            st.offset <= IMAGE_WORDS,
            wr.wf(),
            wr.initial() == Seq::<u8>::empty(),
            encode(nodes@.take(i as int), st.symbols) == Ok::<(Seq<bool>, int), ErrorView>((wr@, current as int)),
            resolve(nodes@.take(i as int)) is Ok,
            wr@.len() <= 16 * IMAGE_WORDS,
            current <= IMAGE_WORDS,
            warnings@ == all_warnings(nodes@.take(i as int)),
        decreases nodes@.len() - i,
    {
        assert(nodes@.take(i + 1).drop_last() =~= nodes@.take(i as int));
        let ghost before = wr@;
        let (bytes_before, _) = wr.count_written();
        match second_pass(&nodes[i], &mut wr, &symbols, current, &mut warnings) {
            Err(e) => {
                proof {
                    lemma_encode_err_prefix(nodes@, st.symbols, i + 1);
                }
                return Err(e);
            },
            Ok(()) => {},
        }
        proof {
            lemma_resolve_ok_prefix(nodes@, i + 1);
            lemma_passes_agree(nodes@.take(i + 1), st.symbols);
            lemma_resolve_bounds(nodes@.take(i + 1));
        }
        let (bytes_after, _) = wr.count_written();
        proof {
            let c = node_bits(nodes@[i as int], st.symbols, current as int)->Ok_0;
            lemma_node_len(nodes@[i as int], resolve(nodes@.take(i as int))->Ok_0, st.symbols, current as int);
            assert(wr@ == before + c);
        }
        if let Node::Orig { .. } = &nodes[i] {
        } else {
            current = current + ((bytes_after - bytes_before) / 2) as usize;
        }
        i = i + 1;
    }
    assert(nodes@.take(i as int) =~= nodes@);
    let image = wr.into_inner();
    proof {
        assert(bytes_bits(Seq::<u8>::empty()) =~= Seq::<bool>::empty());
        assert(Seq::<bool>::empty() + wr@ =~= wr@);
    }
    Ok(Assembly { image, symbols, warnings })
}

/// Assembles a program into its object image.
pub fn assemble(nodes: &Vec<Node>) -> (r: Result<Vec<u8>, Error>)
    ensures
        match assembled(nodes@) {
            Ok(image) => r matches Ok(v) && v@ == image,
            Err(e) => r matches Err(x) && x@ == e,
        },
{
    match assemble_from_pairs(nodes) {
        Ok(a) => Ok(a.image),
        Err(e) => Err(e),
    }
}

/// Reads assembly text and assembles it into its object image.
pub fn assemble_text(input: &str) -> (r: Result<Vec<u8>, Error>)
    ensures
        parsed(input@) is None ==> (r matches Err(e) && e is Syntax),
        parsed(input@) is Some ==> exists|nodes: Seq<Node>| #![trigger assembled(nodes)]
            shapes_of(nodes) == parsed(input@).unwrap()
            && (forall|k: int| 0 <= k < nodes.len() ==> node_in(#[trigger] nodes[k], input@))
            && match assembled(nodes) {
                Ok(image) => r matches Ok(v) && v@ == image,
                Err(e) => r matches Err(x) && x@ == e,
            },
{
    let nodes = match parse(input) {
        Ok(n) => n,
        Err(e) => return Err(e),
    };
    let r = assemble(&nodes);
    assert(shapes_of(nodes@) == parsed(input@).unwrap());
    r
}

/// Whether the text holds the letter, in either case.
fn has_letter_exec(s: &str, lower: char, upper: char) -> (r: bool)
    ensures
        r == has_letter(s@, lower, upper),
{
    let n = s.unicode_len();
    let mut i: usize = 0;
    while i < n
        invariant
            i <= n == s@.len(),
            forall|j: int| 0 <= j < i ==> s@[j] != lower && s@[j] != upper,
        decreases n - i,
    {
        let c = s.get_char(i);
        if c == lower || c == upper {
            assert(s@.contains(c));
            return true;
        }
        i = i + 1;
    }
    false
}

} // verus!
