//! Reading LC-3 assembly text into syntax nodes.
//!
//! The grammar is line-oriented. A line is split into tokens at blanks and
//! commas; a quoted string is one token and `;` starts a comment. When the
//! first token is not a mnemonic or directive it declares a label; the rest
//! of the line, if any, is one instruction or directive with its operands.
use vstd::prelude::*;
use crate::error::Error;
use crate::node::{AluOp, BaseOp, Instr, Node, Operand, PcOp, Span, TrapRoutine};

verus! {

/// A range of character positions, over integers.
pub type SpanV = (int, int);

/// The span as integers.
pub open spec fn sv(sp: Span) -> SpanV {
    (sp.start as int, sp.end as int)
}

/// The token as integers.
pub open spec fn tv(t: (usize, usize)) -> SpanV {
    (t.0 as int, t.1 as int)
}

/// The kind and operand spans of an instruction.
pub ghost enum InstrShape {
    Alu(AluOp, SpanV, SpanV, SpanV),
    AluImm(AluOp, SpanV, SpanV, SpanV),
    Not(SpanV, SpanV),
    Br(SpanV, SpanV),
    Jmp(SpanV),
    Jsr(SpanV),
    Jsrr(SpanV),
    PcRel(PcOp, SpanV, SpanV),
    BaseRel(BaseOp, SpanV, SpanV, SpanV),
    Ret,
    Rti,
    Trap(SpanV),
    Nop,
}

/// The kind and spans of a node; with the source text, they fix the node.
pub ghost enum Shape {
    Label(SpanV),
    Instruction(InstrShape, SpanV),
    TrapCode(TrapRoutine, SpanV),
    Orig(SpanV),
    Fill(SpanV),
    Blkw(SpanV),
    /// The text between the quotes, and the whole directive.
    Stringz(SpanV, SpanV),
    End,
    Eoi,
}

pub open spec fn instr_shape(i: Instr) -> InstrShape {
    match i {
        Instr::Alu { op, dr, sr1, sr2 } => InstrShape::Alu(op, sv(dr.span), sv(sr1.span), sv(sr2.span)),
        Instr::AluImm { op, dr, sr1, imm } => InstrShape::AluImm(op, sv(dr.span), sv(sr1.span), sv(imm.span)),
        Instr::Not { dr, sr } => InstrShape::Not(sv(dr.span), sv(sr.span)),
        Instr::Br { flags, target } => InstrShape::Br(sv(flags.span), sv(target.span)),
        Instr::Jmp { base } => InstrShape::Jmp(sv(base.span)),
        Instr::Jsr { target } => InstrShape::Jsr(sv(target.span)),
        Instr::Jsrr { base } => InstrShape::Jsrr(sv(base.span)),
        Instr::PcRel { op, reg, target } => InstrShape::PcRel(op, sv(reg.span), sv(target.span)),
        Instr::BaseRel { op, reg, base, offset } => InstrShape::BaseRel(op, sv(reg.span), sv(base.span), sv(offset.span)),
        Instr::Ret => InstrShape::Ret,
        Instr::Rti => InstrShape::Rti,
        Instr::Trap { vector } => InstrShape::Trap(sv(vector.span)),
        Instr::Nop => InstrShape::Nop,
    }
}

pub open spec fn node_shape(n: Node) -> Shape {
    match n {
        Node::LabelDecl { span, .. } => Shape::Label(sv(span)),
        Node::Instruction { instr, span } => Shape::Instruction(instr_shape(instr), sv(span)),
        Node::TrapCode { routine, span } => Shape::TrapCode(routine, sv(span)),
        Node::Orig { value } => Shape::Orig(sv(value.span)),
        Node::Fill { value } => Shape::Fill(sv(value.span)),
        Node::Blkw { count } => Shape::Blkw(sv(count.span)),
        Node::Stringz { text, span } => Shape::Stringz(sv(text.span), sv(span)),
        Node::End => Shape::End,
        Node::Eoi => Shape::Eoi,
    }
}

/// The span lies within a text of `n` characters.
pub open spec fn span_in(sp: Span, n: nat) -> bool {
    sp.start <= sp.end <= n
}

/// The operand is exactly the text at its span.
pub open spec fn operand_in(o: Operand, s: Seq<char>) -> bool {
    span_in(o.span, s.len()) && o.text@ == s.subrange(o.span.start as int, o.span.end as int)
}

/// Every operand of the instruction is exactly the text at its span.
pub open spec fn instr_in(i: Instr, s: Seq<char>) -> bool {
    match i {
        Instr::Alu { dr, sr1, sr2, .. } => operand_in(dr, s) && operand_in(sr1, s) && operand_in(sr2, s),
        Instr::AluImm { dr, sr1, imm, .. } => operand_in(dr, s) && operand_in(sr1, s) && operand_in(imm, s),
        Instr::Not { dr, sr } => operand_in(dr, s) && operand_in(sr, s),
        Instr::Br { flags, target } => operand_in(flags, s) && operand_in(target, s),
        Instr::Jmp { base } => operand_in(base, s),
        Instr::Jsr { target } => operand_in(target, s),
        Instr::Jsrr { base } => operand_in(base, s),
        Instr::PcRel { reg, target, .. } => operand_in(reg, s) && operand_in(target, s),
        Instr::BaseRel { reg, base, offset, .. } => operand_in(reg, s) && operand_in(base, s) && operand_in(offset, s),
        Instr::Trap { vector } => operand_in(vector, s),
        _ => true,
    }
}

/// Every name and operand of the node is exactly the source text at its span.
pub open spec fn node_in(n: Node, s: Seq<char>) -> bool {
    match n {
        Node::LabelDecl { name, span } => span_in(span, s.len()) && name@ == s.subrange(span.start as int, span.end as int),
        Node::Instruction { instr, span } => instr_in(instr, s) && span_in(span, s.len()),
        Node::TrapCode { span, .. } => span_in(span, s.len()),
        Node::Orig { value } => operand_in(value, s),
        Node::Fill { value } => operand_in(value, s),
        Node::Blkw { count } => operand_in(count, s),
        Node::Stringz { text, .. } => operand_in(text, s),
        _ => true,
    }
}

/// A blank: what separates tokens.
pub open spec fn blank(c: char) -> bool {
    c == ' ' || c == '\t' || c == '\r' || c == ','
}

/// The end of the line that starts at `i`: the next line break, or the end.
pub open spec fn line_end(s: Seq<char>, i: int) -> int
    decreases s.len() - i,
{
    if i >= s.len() || i < 0 || s[i] == '\n' {
        i
    } else {
        line_end(s, i + 1)
    }
}

/// The position of the closing quote of a string from `i` on (a backslash
/// escapes the next character), or `end`.
pub open spec fn quote_end(s: Seq<char>, i: int, end: int) -> int
    decreases end - i,
{
    if i >= end || s[i] == '"' {
        i
    } else if s[i] == '\\' && i + 1 < end {
        quote_end(s, i + 2, end)
    } else {
        quote_end(s, i + 1, end)
    }
}

/// The end of a word from `i` on: the next blank, `;`, or `end`.
pub open spec fn word_end(s: Seq<char>, i: int, end: int) -> int
    decreases end - i,
{
    if i >= end || blank(s[i]) || s[i] == ';' {
        i
    } else {
        word_end(s, i + 1, end)
    }
}

/// Where the token that starts at `i` ends.
pub open spec fn token_end(s: Seq<char>, i: int, end: int) -> int {
    if s[i] == '"' {
        let j = quote_end(s, i + 1, end);
        if j < end { j + 1 } else { j }
    } else {
        word_end(s, i + 1, end)
    }
}

/// The tokens of the characters `[i, end)`.
pub open spec fn tokens(s: Seq<char>, i: int, end: int) -> Seq<SpanV>
    decreases end - i,
{
    if i >= end || s[i] == ';' {
        Seq::empty()
    } else if blank(s[i]) {
        tokens(s, i + 1, end)
    } else {
        let k = token_end(s, i, end);
        let next = if i < k <= end { k } else { end };
        seq![(i, next)] + tokens(s, next, end)
    }
}

proof fn lemma_quote_end(s: Seq<char>, i: int, end: int)
    requires
        i <= end,
    ensures
        i <= quote_end(s, i, end) <= end,
    decreases end - i,
{
    if i < end && s[i] != '"' {
        if s[i] == '\\' && i + 1 < end {
            lemma_quote_end(s, i + 2, end);
        } else {
            lemma_quote_end(s, i + 1, end);
        }
    }
}

proof fn lemma_word_end(s: Seq<char>, i: int, end: int)
    requires
        i <= end,
    ensures
        i <= word_end(s, i, end) <= end,
    decreases end - i,
{
    if i < end && !blank(s[i]) && s[i] != ';' {
        lemma_word_end(s, i + 1, end);
    }
}

proof fn lemma_line_end(s: Seq<char>, i: int)
    requires
        0 <= i <= s.len(),
    ensures
        i <= line_end(s, i) <= s.len(),
    decreases s.len() - i,
{
    if i < s.len() && s[i] != '\n' {
        lemma_line_end(s, i + 1);
    }
}

/// The ASCII lower case of a character, as a code.
pub open spec fn lower(c: char) -> u32 {
    if 65 <= c as u32 <= 90 {
        (c as u32 + 32) as u32
    } else {
        c as u32
    }
}

/// Whether the token reads `word`, in either case of ASCII letters.
pub open spec fn tok_reads(s: Seq<char>, t: SpanV, word: Seq<char>) -> bool {
    &&& t.1 - t.0 == word.len()
    &&& forall|i: int| 0 <= i < word.len() ==> lower(#[trigger] s[t.0 + i]) == word[i] as u32
}

/// The mnemonics and directives.
#[derive(Clone, Copy, PartialEq, Eq, Structural)]
pub enum Kw {
    Alu(AluOp),
    Not,
    Jmp,
    Jsr,
    Jsrr,
    Pc(PcOp),
    Base(BaseOp),
    Ret,
    Rti,
    Trap,
    Nop,
    Orig,
    Fill,
    Blkw,
    Stringz,
    End,
    Routine(TrapRoutine),
}

/// The mnemonic or directive that a token reads, in either case.
pub open spec fn keyword_of_0(s: Seq<char>, t: SpanV) -> Option<Kw> {
    if tok_reads(s, t, seq!['a', 'd', 'd']) {
        Some(Kw::Alu(AluOp::Add))
    } else if tok_reads(s, t, seq!['a', 'n', 'd']) {
        Some(Kw::Alu(AluOp::And))
    } else if tok_reads(s, t, seq!['n', 'o', 't']) {
        Some(Kw::Not)
    } else if tok_reads(s, t, seq!['j', 'm', 'p']) {
        Some(Kw::Jmp)
    } else if tok_reads(s, t, seq!['j', 's', 'r']) {
        Some(Kw::Jsr)
    } else if tok_reads(s, t, seq!['j', 's', 'r', 'r']) {
        Some(Kw::Jsrr)
    } else if tok_reads(s, t, seq!['l', 'd']) {
        Some(Kw::Pc(PcOp::Ld))
    } else {
        None
    }
}

pub open spec fn keyword_of_1(s: Seq<char>, t: SpanV) -> Option<Kw> {
    if tok_reads(s, t, seq!['l', 'd', 'i']) {
        Some(Kw::Pc(PcOp::Ldi))
    } else if tok_reads(s, t, seq!['l', 'e', 'a']) {
        Some(Kw::Pc(PcOp::Lea))
    } else if tok_reads(s, t, seq!['s', 't']) {
        Some(Kw::Pc(PcOp::St))
    } else if tok_reads(s, t, seq!['s', 't', 'i']) {
        Some(Kw::Pc(PcOp::Sti))
    } else if tok_reads(s, t, seq!['l', 'd', 'r']) {
        Some(Kw::Base(BaseOp::Ldr))
    } else if tok_reads(s, t, seq!['s', 't', 'r']) {
        Some(Kw::Base(BaseOp::Str))
    } else if tok_reads(s, t, seq!['r', 'e', 't']) {
        Some(Kw::Ret)
    } else {
        None
    }
}

pub open spec fn keyword_of_2(s: Seq<char>, t: SpanV) -> Option<Kw> {
    if tok_reads(s, t, seq!['r', 't', 'i']) {
        Some(Kw::Rti)
    } else if tok_reads(s, t, seq!['t', 'r', 'a', 'p']) {
        Some(Kw::Trap)
    } else if tok_reads(s, t, seq!['n', 'o', 'p']) {
        Some(Kw::Nop)
    } else if tok_reads(s, t, seq!['.', 'o', 'r', 'i', 'g']) {
        Some(Kw::Orig)
    } else if tok_reads(s, t, seq!['.', 'f', 'i', 'l', 'l']) {
        Some(Kw::Fill)
    } else if tok_reads(s, t, seq!['.', 'b', 'l', 'k', 'w']) {
        Some(Kw::Blkw)
    } else if tok_reads(s, t, seq!['.', 's', 't', 'r', 'i', 'n', 'g', 'z']) {
        Some(Kw::Stringz)
    } else {
        None
    }
}

pub open spec fn keyword_of_3(s: Seq<char>, t: SpanV) -> Option<Kw> {
    if tok_reads(s, t, seq!['.', 'e', 'n', 'd']) {
        Some(Kw::End)
    } else if tok_reads(s, t, seq!['g', 'e', 't', 'c']) {
        Some(Kw::Routine(TrapRoutine::Getc))
    } else if tok_reads(s, t, seq!['o', 'u', 't']) {
        Some(Kw::Routine(TrapRoutine::Out))
    } else if tok_reads(s, t, seq!['p', 'u', 't', 's']) {
        Some(Kw::Routine(TrapRoutine::Puts))
    } else if tok_reads(s, t, seq!['i', 'n']) {
        Some(Kw::Routine(TrapRoutine::In))
    } else if tok_reads(s, t, seq!['p', 'u', 't', 's', 'p']) {
        Some(Kw::Routine(TrapRoutine::Putsp))
    } else if tok_reads(s, t, seq!['h', 'a', 'l', 't']) {
        Some(Kw::Routine(TrapRoutine::Halt))
    } else {
        None
    }
}

/// The mnemonic or directive that a token reads, in either case.
pub open spec fn keyword_of(s: Seq<char>, t: SpanV) -> Option<Kw> {
    if keyword_of_0(s, t) is Some {
        keyword_of_0(s, t)
    } else if keyword_of_1(s, t) is Some {
        keyword_of_1(s, t)
    } else if keyword_of_2(s, t) is Some {
        keyword_of_2(s, t)
    } else {
        keyword_of_3(s, t)
    }
}

/// Whether the token is `BR` followed by condition letters only.
pub open spec fn branch_tok(s: Seq<char>, t: SpanV) -> bool {
    &&& t.1 - t.0 >= 2
    &&& lower(s[t.0]) == 'b' as u32
    &&& lower(s[t.0 + 1]) == 'r' as u32
    &&& forall|i: int| t.0 + 2 <= i < t.1 ==> #[trigger] lower(s[i]) == 'n' as u32 || lower(s[i]) == 'z' as u32
        || lower(s[i]) == 'p' as u32
}

/// Whether the token names a register: `r` or `R` and one digit.
pub open spec fn register_tok(s: Seq<char>, t: SpanV) -> bool {
    t.1 - t.0 == 2 && lower(s[t.0]) == 'r' as u32 && '0' <= s[t.0 + 1] <= '9'
}

/// Whether the token is a quoted string.
pub open spec fn quoted_tok(s: Seq<char>, t: SpanV) -> bool {
    t.1 - t.0 >= 2 && s[t.0] == '"' && s[t.1 - 1] == '"'
}

/// The node that the tokens from `first` on make: the mnemonic or directive,
/// then exactly as many operands as it takes. `None` is a syntax error.
pub open spec fn statement_shape(s: Seq<char>, toks: Seq<SpanV>, first: int) -> Option<Shape> {
    let t = toks[first];
    let argc = toks.len() - first - 1;
    match keyword_of(s, t) {
        Some(Kw::Routine(r)) => if argc == 0 { Some(Shape::TrapCode(r, t)) } else { None },
        Some(Kw::Ret) => if argc == 0 { Some(Shape::Instruction(InstrShape::Ret, t)) } else { None },
        Some(Kw::Rti) => if argc == 0 { Some(Shape::Instruction(InstrShape::Rti, t)) } else { None },
        Some(Kw::Nop) => if argc == 0 { Some(Shape::Instruction(InstrShape::Nop, t)) } else { None },
        Some(Kw::End) => if argc == 0 { Some(Shape::End) } else { None },
        Some(Kw::Jmp) => if argc == 1 { Some(Shape::Instruction(InstrShape::Jmp(toks[first + 1]), t)) } else { None },
        Some(Kw::Jsr) => if argc == 1 { Some(Shape::Instruction(InstrShape::Jsr(toks[first + 1]), t)) } else { None },
        Some(Kw::Jsrr) => if argc == 1 { Some(Shape::Instruction(InstrShape::Jsrr(toks[first + 1]), t)) } else { None },
        Some(Kw::Trap) => if argc == 1 { Some(Shape::Instruction(InstrShape::Trap(toks[first + 1]), t)) } else { None },
        Some(Kw::Orig) => if argc == 1 { Some(Shape::Orig(toks[first + 1])) } else { None },
        Some(Kw::Fill) => if argc == 1 { Some(Shape::Fill(toks[first + 1])) } else { None },
        Some(Kw::Blkw) => if argc == 1 { Some(Shape::Blkw(toks[first + 1])) } else { None },
        Some(Kw::Stringz) => {
            let a = toks[first + 1];
            if argc == 1 && quoted_tok(s, a) {
                Some(Shape::Stringz((a.0 + 1, a.1 - 1), (t.0, a.1)))
            } else {
                None
            }
        },
        Some(Kw::Pc(op)) => if argc == 2 {
            Some(Shape::Instruction(InstrShape::PcRel(op, toks[first + 1], toks[first + 2]), t))
        } else {
            None
        },
        Some(Kw::Not) => if argc == 2 {
            Some(Shape::Instruction(InstrShape::Not(toks[first + 1], toks[first + 2]), t))
        } else {
            None
        },
        Some(Kw::Alu(op)) => if argc == 3 {
            if register_tok(s, toks[first + 3]) {
                Some(Shape::Instruction(InstrShape::Alu(op, toks[first + 1], toks[first + 2], toks[first + 3]), t))
            } else {
                Some(Shape::Instruction(InstrShape::AluImm(op, toks[first + 1], toks[first + 2], toks[first + 3]), t))
            }
        } else {
            None
        },
        Some(Kw::Base(op)) => if argc == 3 {
            Some(Shape::Instruction(InstrShape::BaseRel(op, toks[first + 1], toks[first + 2], toks[first + 3]), t))
        } else {
            None
        },
        None => if branch_tok(s, t) && argc == 1 {
            Some(Shape::Instruction(InstrShape::Br((t.0 + 2, t.1), toks[first + 1]), t))
        } else {
            None
        },
    }
}

/// Whether a token opens a statement rather than declaring a label.
pub open spec fn opens_statement(s: Seq<char>, t: SpanV) -> bool {
    keyword_of(s, t) is Some || branch_tok(s, t)
}

/// The nodes of one line's tokens: a label when the first token does not
/// open a statement, then the statement, if any.
pub open spec fn line_shapes(s: Seq<char>, toks: Seq<SpanV>) -> Option<Seq<Shape>> {
    if toks.len() == 0 {
        Some(Seq::empty())
    } else {
        let label = !opens_statement(s, toks[0]);
        let first: int = if label { 1 } else { 0 };
        let pre = if label { seq![Shape::Label(toks[0])] } else { Seq::empty() };
        if first < toks.len() {
            match statement_shape(s, toks, first) {
                Some(st) => Some(pre.push(st)),
                None => None,
            }
        } else {
            Some(pre)
        }
    }
}

/// The nodes of the text from position `i` on, line by line, ending with the
/// end-of-input marker; `None` when a line is malformed.
pub open spec fn parse_from(s: Seq<char>, i: int) -> Option<Seq<Shape>>
    decreases s.len() - i,
{
    if i >= s.len() || i < 0 {
        Some(seq![Shape::Eoi])
    } else {
        let e = line_end(s, i);
        let next = if i <= e < s.len() { e + 1 } else { s.len() as int };
        match line_shapes(s, tokens(s, i, e)) {
            None => None,
            Some(l) => match parse_from(s, next) {
                None => None,
                Some(rest) => Some(l + rest),
            },
        }
    }
}

/// The nodes of a whole text.
pub open spec fn parsed(s: Seq<char>) -> Option<Seq<Shape>> {
    parse_from(s, 0)
}

pub open spec fn shapes_of(nodes: Seq<Node>) -> Seq<Shape> {
    nodes.map_values(|n: Node| node_shape(n))
}

pub open spec fn toks_view(toks: Seq<(usize, usize)>) -> Seq<SpanV> {
    toks.map_values(|t: (usize, usize)| tv(t))
}

/// A token: the character positions `[start, end)` of a word of the source.
type Tok = (usize, usize);

pub open spec fn tok_in(t: (usize, usize), n: nat) -> bool {
    t.0 <= t.1 <= n
}

fn is_blank(c: char) -> (r: bool)
    ensures
        r == blank(c),
{
    c == ' ' || c == '\t' || c == '\r' || c == ','
}

/// The ASCII lower case of a character, as a code.
fn lower_code(c: char) -> (r: u32)
    ensures
        r == lower(c),
{
    let u = c as u32;
    if 65 <= u && u <= 90 {
        u + 32
    } else {
        u
    }
}

/// Whether the token reads `word` (given in lower case), in either case.
fn tok_is(s: &str, t: Tok, word: &str) -> (r: bool)
    requires
        tok_in(t, s@.len()),
    ensures
        r == tok_reads(s@, tv(t), word@),
{
    let n = word.unicode_len();
    if t.1 - t.0 != n {
        return false;
    }
    let mut i: usize = 0;
    while i < n
        invariant
            tok_in(t, s@.len()),
            t.1 - t.0 == n,
            n == word@.len(),
            i <= n,
            forall|j: int| 0 <= j < i ==> lower(#[trigger] s@[t.0 + j]) == word@[j] as u32,
        decreases n - i,
    {
        if lower_code(s.get_char(t.0 + i)) != word.get_char(i) as u32 {
            return false;
        }
        i = i + 1;
    }
    true
}

fn keyword_0(s: &str, t: Tok) -> (r: Option<Kw>)
    requires
        tok_in(t, s@.len()),
    ensures
        r == keyword_of_0(s@, tv(t)),
{
    proof {
        reveal_strlit("add");
        reveal_strlit("and");
        reveal_strlit("not");
        reveal_strlit("jmp");
        reveal_strlit("jsr");
        reveal_strlit("jsrr");
        reveal_strlit("ld");
    }
    if tok_is(s, t, "add") {
        Some(Kw::Alu(AluOp::Add))
    } else if tok_is(s, t, "and") {
        Some(Kw::Alu(AluOp::And))
    } else if tok_is(s, t, "not") {
        Some(Kw::Not)
    } else if tok_is(s, t, "jmp") {
        Some(Kw::Jmp)
    } else if tok_is(s, t, "jsr") {
        Some(Kw::Jsr)
    } else if tok_is(s, t, "jsrr") {
        Some(Kw::Jsrr)
    } else if tok_is(s, t, "ld") {
        Some(Kw::Pc(PcOp::Ld))
    } else {
        None
    }
}

fn keyword_1(s: &str, t: Tok) -> (r: Option<Kw>)
    requires
        tok_in(t, s@.len()),
    ensures
        r == keyword_of_1(s@, tv(t)),
{
    proof {
        reveal_strlit("ldi");
        reveal_strlit("lea");
        reveal_strlit("st");
        reveal_strlit("sti");
        reveal_strlit("ldr");
        reveal_strlit("str");
        reveal_strlit("ret");
    }
    if tok_is(s, t, "ldi") {
        Some(Kw::Pc(PcOp::Ldi))
    } else if tok_is(s, t, "lea") {
        Some(Kw::Pc(PcOp::Lea))
    } else if tok_is(s, t, "st") {
        Some(Kw::Pc(PcOp::St))
    } else if tok_is(s, t, "sti") {
        Some(Kw::Pc(PcOp::Sti))
    } else if tok_is(s, t, "ldr") {
        Some(Kw::Base(BaseOp::Ldr))
    } else if tok_is(s, t, "str") {
        Some(Kw::Base(BaseOp::Str))
    } else if tok_is(s, t, "ret") {
        Some(Kw::Ret)
    } else {
        None
    }
}

fn keyword_2(s: &str, t: Tok) -> (r: Option<Kw>)
    requires
        tok_in(t, s@.len()),
    ensures
        r == keyword_of_2(s@, tv(t)),
{
    proof {
        reveal_strlit("rti");
        reveal_strlit("trap");
        reveal_strlit("nop");
        reveal_strlit(".orig");
        reveal_strlit(".fill");
        reveal_strlit(".blkw");
        reveal_strlit(".stringz");
    }
    if tok_is(s, t, "rti") {
        Some(Kw::Rti)
    } else if tok_is(s, t, "trap") {
        Some(Kw::Trap)
    } else if tok_is(s, t, "nop") {
        Some(Kw::Nop)
    } else if tok_is(s, t, ".orig") {
        Some(Kw::Orig)
    } else if tok_is(s, t, ".fill") {
        Some(Kw::Fill)
    } else if tok_is(s, t, ".blkw") {
        Some(Kw::Blkw)
    } else if tok_is(s, t, ".stringz") {
        Some(Kw::Stringz)
    } else {
        None
    }
}

fn keyword_3(s: &str, t: Tok) -> (r: Option<Kw>)
    requires
        tok_in(t, s@.len()),
    ensures
        r == keyword_of_3(s@, tv(t)),
{
    proof {
        reveal_strlit(".end");
        reveal_strlit("getc");
        reveal_strlit("out");
        reveal_strlit("puts");
        reveal_strlit("in");
        reveal_strlit("putsp");
        reveal_strlit("halt");
    }
    if tok_is(s, t, ".end") {
        Some(Kw::End)
    } else if tok_is(s, t, "getc") {
        Some(Kw::Routine(TrapRoutine::Getc))
    } else if tok_is(s, t, "out") {
        Some(Kw::Routine(TrapRoutine::Out))
    } else if tok_is(s, t, "puts") {
        Some(Kw::Routine(TrapRoutine::Puts))
    } else if tok_is(s, t, "in") {
        Some(Kw::Routine(TrapRoutine::In))
    } else if tok_is(s, t, "putsp") {
        Some(Kw::Routine(TrapRoutine::Putsp))
    } else if tok_is(s, t, "halt") {
        Some(Kw::Routine(TrapRoutine::Halt))
    } else {
        None
    }
}

/// The mnemonic or directive that a token reads.
fn keyword(s: &str, t: Tok) -> (r: Option<Kw>)
    requires
        tok_in(t, s@.len()),
    ensures
        r == keyword_of(s@, tv(t)),
{
    let k0 = keyword_0(s, t);
    if k0.is_some() {
        return k0;
    }
    let k1 = keyword_1(s, t);
    if k1.is_some() {
        return k1;
    }
    let k2 = keyword_2(s, t);
    if k2.is_some() {
        return k2;
    }
    keyword_3(s, t)
}

/// Whether the token is `BR` followed by condition letters only.
fn is_branch(s: &str, t: Tok) -> (r: bool)
    requires
        tok_in(t, s@.len()),
    ensures
        r == branch_tok(s@, tv(t)),
{
    if t.1 - t.0 < 2 || lower_code(s.get_char(t.0)) != 'b' as u32 || lower_code(s.get_char(t.0 + 1)) != 'r' as u32 {
        return false;
    }
    let mut i: usize = t.0 + 2;
    while i < t.1
        invariant
            t.0 + 2 <= i <= t.1 <= s@.len(),
            forall|j: int| t.0 + 2 <= j < i ==> #[trigger] lower(s@[j]) == 'n' as u32
                || lower(s@[j]) == 'z' as u32 || lower(s@[j]) == 'p' as u32,
        decreases t.1 - i,
    {
        let c = lower_code(s.get_char(i));
        if c != 'n' as u32 && c != 'z' as u32 && c != 'p' as u32 {
            return false;
        }
        i = i + 1;
    }
    true
}

/// Whether the token names a register.
fn is_register(s: &str, t: Tok) -> (r: bool)
    requires
        tok_in(t, s@.len()),
    ensures
        r == register_tok(s@, tv(t)),
{
    t.1 - t.0 == 2 && lower_code(s.get_char(t.0)) == 'r' as u32 && {
        let d = s.get_char(t.0 + 1);
        '0' <= d && d <= '9'
    }
}

/// The operand at a token.
fn operand_at(s: &str, t: Tok) -> (r: Operand)
    requires
        tok_in(t, s@.len()),
    ensures
        operand_in(r, s@),
        r.span == (Span { start: t.0, end: t.1 }),
{
    let text = s.substring_char(t.0, t.1).to_owned();
    Operand { text, span: Span { start: t.0, end: t.1 } }
}

/// Splits the characters `[start, end)` into tokens.
fn tokenize(s: &str, start: usize, end: usize) -> (r: Vec<Tok>)
    requires
        start <= end <= s@.len(),
    ensures
        toks_view(r@) == tokens(s@, start as int, end as int),
        forall|k: int| 0 <= k < r@.len() ==> tok_in(#[trigger] r@[k], s@.len()),
{
    let ghost all = tokens(s@, start as int, end as int);
    let mut toks: Vec<Tok> = Vec::new();
    let mut i: usize = start;
    assert(toks_view(toks@) + tokens(s@, i as int, end as int) =~= all);
    while i < end
        invariant
            start <= i <= end <= s@.len(),
            all == tokens(s@, start as int, end as int),
            toks_view(toks@) + tokens(s@, i as int, end as int) == all,
            forall|k: int| 0 <= k < toks@.len() ==> tok_in(#[trigger] toks@[k], s@.len()),
        decreases end - i,
    {
        let c = s.get_char(i);
        if c == ';' {
            assert(tokens(s@, i as int, end as int) =~= Seq::<SpanV>::empty());
            assert(toks_view(toks@) =~= all);
            return toks;
        }
        if is_blank(c) {
            i = i + 1;
        } else {
            let b = i;
            let ghost rest = tokens(s@, b as int, end as int);
            if c == '"' {
                i = i + 1;
                proof { lemma_quote_end(s@, i as int, end as int); }
                while i < end && s.get_char(i) != '"'
                    invariant
                        b < i <= end <= s@.len(),
                        quote_end(s@, i as int, end as int) == quote_end(s@, b + 1, end as int),
                    decreases end - i,
                {
                    if s.get_char(i) == '\\' && i + 1 < end {
                        i = i + 1;
                    }
                    i = i + 1;
                }
                if i < end {
                    i = i + 1;
                }
            } else {
                i = i + 1;
                proof { lemma_word_end(s@, i as int, end as int); }
                while i < end && !is_blank(s.get_char(i)) && s.get_char(i) != ';'
                    invariant
                        b < i <= end <= s@.len(),
                        word_end(s@, i as int, end as int) == word_end(s@, b + 1, end as int),
                    decreases end - i,
                {
                    i = i + 1;
                }
            }
            assert(token_end(s@, b as int, end as int) == i);
            let ghost before = toks@;
            toks.push((b, i));
            assert(toks_view(toks@) =~= toks_view(before).push((b as int, i as int)));
            assert(toks_view(toks@) + tokens(s@, i as int, end as int) =~= toks_view(before) + rest);
        }
    }
    assert(tokens(s@, i as int, end as int) =~= Seq::<SpanV>::empty());
    assert(toks_view(toks@) =~= all);
    toks
}

fn syntax(message: &str, t: Tok) -> (r: Error)
    ensures
        r is Syntax,
{
    Error::Syntax { message: message.to_owned(), span: Span { start: t.0, end: t.1 } }
}

/// The node that the tokens from `first` on make.
fn statement(s: &str, toks: &Vec<Tok>, first: usize) -> (r: Result<Node, Error>)
    requires
        first < toks@.len(),
        forall|k: int| 0 <= k < toks@.len() ==> tok_in(#[trigger] toks@[k], s@.len()),
    ensures
        match statement_shape(s@, toks_view(toks@), first as int) {
            Some(sh) => r matches Ok(n) && node_shape(n) == sh && node_in(n, s@),
            None => r matches Err(e) && e is Syntax,
        },
{
    let t = toks[first];
    let argc = toks.len() - first - 1;
    let span = Span { start: t.0, end: t.1 };
    assert(toks_view(toks@)[first as int] == tv(t));
    assert(forall|k: int| 0 <= k < toks@.len() ==> #[trigger] toks_view(toks@)[k] == tv(toks@[k]));
    match keyword(s, t) {
        Some(Kw::Routine(routine)) => {
            if argc != 0 {
                return Err(syntax("a trap routine takes no operand", t));
            }
            Ok(Node::TrapCode { routine, span })
        },
        Some(Kw::Ret) | Some(Kw::Rti) | Some(Kw::Nop) | Some(Kw::End) => {
            if argc != 0 {
                return Err(syntax("this form takes no operand", t));
            }
            match keyword(s, t) {
                Some(Kw::Ret) => Ok(Node::Instruction { instr: Instr::Ret, span }),
                Some(Kw::Rti) => Ok(Node::Instruction { instr: Instr::Rti, span }),
                Some(Kw::Nop) => Ok(Node::Instruction { instr: Instr::Nop, span }),
                _ => Ok(Node::End),
            }
        },
        Some(Kw::Stringz) => {
            if argc != 1 {
                return Err(syntax(".STRINGZ takes one operand", t));
            }
            let a = toks[first + 1];
            if a.1 - a.0 < 2 || s.get_char(a.0) != '"' || s.get_char(a.1 - 1) != '"' {
                return Err(syntax(".STRINGZ takes a quoted string", a));
            }
            let text = operand_at(s, (a.0 + 1, a.1 - 1));
            Ok(Node::Stringz { text, span: Span { start: t.0, end: a.1 } })
        },
        Some(Kw::Jmp) | Some(Kw::Jsr) | Some(Kw::Jsrr) | Some(Kw::Trap) | Some(Kw::Orig) | Some(Kw::Fill)
        | Some(Kw::Blkw) => {
            if argc != 1 {
                return Err(syntax("this form takes one operand", t));
            }
            let o = operand_at(s, toks[first + 1]);
            match keyword(s, t) {
                Some(Kw::Jmp) => Ok(Node::Instruction { instr: Instr::Jmp { base: o }, span }),
                Some(Kw::Jsr) => Ok(Node::Instruction { instr: Instr::Jsr { target: o }, span }),
                Some(Kw::Jsrr) => Ok(Node::Instruction { instr: Instr::Jsrr { base: o }, span }),
                Some(Kw::Trap) => Ok(Node::Instruction { instr: Instr::Trap { vector: o }, span }),
                Some(Kw::Orig) => Ok(Node::Orig { value: o }),
                Some(Kw::Fill) => Ok(Node::Fill { value: o }),
                _ => Ok(Node::Blkw { count: o }),
            }
        },
        Some(Kw::Pc(op)) => {
            if argc != 2 {
                return Err(syntax("this instruction takes a register and a label", t));
            }
            let reg = operand_at(s, toks[first + 1]);
            let target = operand_at(s, toks[first + 2]);
            Ok(Node::Instruction { instr: Instr::PcRel { op, reg, target }, span })
        },
        Some(Kw::Not) => {
            if argc != 2 {
                return Err(syntax("NOT takes two registers", t));
            }
            let dr = operand_at(s, toks[first + 1]);
            let sr = operand_at(s, toks[first + 2]);
            Ok(Node::Instruction { instr: Instr::Not { dr, sr }, span })
        },
        Some(Kw::Alu(op)) => {
            if argc != 3 {
                return Err(syntax("this instruction takes three operands", t));
            }
            let dr = operand_at(s, toks[first + 1]);
            let sr1 = operand_at(s, toks[first + 2]);
            let last = toks[first + 3];
            let third = operand_at(s, last);
            if is_register(s, last) {
                Ok(Node::Instruction { instr: Instr::Alu { op, dr, sr1, sr2: third }, span })
            } else {
                Ok(Node::Instruction { instr: Instr::AluImm { op, dr, sr1, imm: third }, span })
            }
        },
        Some(Kw::Base(op)) => {
            if argc != 3 {
                return Err(syntax("this instruction takes two registers and an offset", t));
            }
            let reg = operand_at(s, toks[first + 1]);
            let base = operand_at(s, toks[first + 2]);
            let offset = operand_at(s, toks[first + 3]);
            Ok(Node::Instruction { instr: Instr::BaseRel { op, reg, base, offset }, span })
        },
        None => {
            if !is_branch(s, t) {
                return Err(syntax("unknown instruction", t));
            }
            if argc != 1 {
                return Err(syntax("a branch takes one label", t));
            }
            let flags = operand_at(s, (t.0 + 2, t.1));
            let target = operand_at(s, toks[first + 1]);
            Ok(Node::Instruction { instr: Instr::Br { flags, target }, span })
        },
    }
}

/// The number of line breaks among the first `pos` characters.
pub open spec fn breaks_before(s: Seq<char>, pos: int) -> nat
    decreases pos,
{
    if pos <= 0 {
        0
    } else {
        breaks_before(s, pos - 1) + if s[pos - 1] == '\n' { 1nat } else { 0nat }
    }
}

/// The position just after the last line break among the first `pos`
/// characters, or 0.
pub open spec fn line_start(s: Seq<char>, pos: int) -> int
    decreases pos,
{
    if pos <= 0 {
        0
    } else if s[pos - 1] == '\n' {
        pos
    } else {
        line_start(s, pos - 1)
    }
}

/// The line and column, both counted from 1, of a character position.
pub fn line_column(input: &str, pos: usize) -> (r: (usize, usize))
    requires
        pos <= input@.len(),
        pos < usize::MAX,
    ensures
        r.0 == breaks_before(input@, pos as int) + 1,
        r.1 == pos - line_start(input@, pos as int) + 1,
{
    let mut line: usize = 1;
    let mut start: usize = 0;
    let mut i: usize = 0;
    while i < pos
        invariant
            i <= pos <= input@.len(),
            pos < usize::MAX,
            line == breaks_before(input@, i as int) + 1,
            start == line_start(input@, i as int),
            start <= i,
            line <= i + 1,
        decreases pos - i,
    {
        if input.get_char(i) == '\n' {
            line = line + 1;
            start = i + 1;
        }
        i = i + 1;
    }
    (line, pos - start + 1)
}

/// The reader of LC-3 assembly text.
pub struct AsmParser;

impl AsmParser {
    /// Reads assembly text into nodes; see [`parse`].
    pub fn parse(input: &str) -> (r: Result<Vec<Node>, Error>)
        ensures
            r is Ok <==> parsed(input@) is Some,
            r matches Ok(nodes) ==> shapes_of(nodes@) == parsed(input@).unwrap()
                && forall|k: int| 0 <= k < nodes@.len() ==> node_in(#[trigger] nodes@[k], input@),
            r matches Err(e) ==> e is Syntax,
    {
        parse(input)
    }
}

/// Reads assembly text into nodes, line by line, ending with the
/// end-of-input marker. The nodes are those that [`parsed`] gives, each name
/// and operand being exactly the source text at its span; a malformed line
/// is a syntax error.
pub fn parse(input: &str) -> (r: Result<Vec<Node>, Error>)
    ensures
        r is Ok <==> parsed(input@) is Some,
        r matches Ok(nodes) ==> shapes_of(nodes@) == parsed(input@).unwrap()
            && forall|k: int| 0 <= k < nodes@.len() ==> node_in(#[trigger] nodes@[k], input@),
        r matches Err(e) ==> e is Syntax,
{
    let n = input.unicode_len();
    let ghost s = input@;
    let mut nodes: Vec<Node> = Vec::new();
    let mut line: usize = 0;
    assert(shapes_of(nodes@) =~= Seq::<Shape>::empty());
    assert(parse_from(s, 0) == match parse_from(s, 0) {
        Some(rest) => Some(Seq::<Shape>::empty() + rest),
        None => None::<Seq<Shape>>,
    }) by {
        if let Some(rest) = parse_from(s, 0) {
            assert(Seq::<Shape>::empty() + rest =~= rest);
        }
    }
    while line < n
        invariant
            line <= n == s.len(),
            s == input@,
            forall|k: int| 0 <= k < nodes@.len() ==> node_in(#[trigger] nodes@[k], s),
            parse_from(s, 0) == match parse_from(s, line as int) {
                Some(rest) => Some(shapes_of(nodes@) + rest),
                None => None::<Seq<Shape>>,
            },
        decreases n - line,
    {
        let mut e: usize = line;
        proof { lemma_line_end(s, line as int); }
        while e < n && input.get_char(e) != '\n'
            invariant
                line <= e <= n == s.len(),
                s == input@,
                line_end(s, e as int) == line_end(s, line as int),
            decreases n - e,
        {
            e = e + 1;
        }
        let toks = tokenize(input, line, e);
        let ghost tv_toks = toks_view(toks@);
        let ghost before = shapes_of(nodes@);
        assert(forall|k: int| 0 <= k < toks@.len() ==> #[trigger] tv_toks[k] == tv(toks@[k]));
        if toks.len() > 0 {
            let mut first: usize = 0;
            if keyword(input, toks[0]).is_none() && !is_branch(input, toks[0]) {
                let t = toks[0];
                let name = input.substring_char(t.0, t.1).to_owned();
                nodes.push(Node::LabelDecl { name, span: Span { start: t.0, end: t.1 } });
                first = 1;
            }
            if first < toks.len() {
                match statement(input, &toks, first) {
                    Ok(node) => {
                        nodes.push(node);
                    },
                    Err(err) => {
                        return Err(err);
                    },
                }
            }
        }
        proof {
            let l = line_shapes(s, tv_toks)->Some_0;
            assert(shapes_of(nodes@) =~= before + l);
            let next: int = if e < n { e + 1 } else { n as int };
            if let Some(rest) = parse_from(s, next) {
                assert(before + (l + rest) =~= shapes_of(nodes@) + rest);
            }
        }
        line = if e < n { e + 1 } else { n };
    }
    let ghost before = shapes_of(nodes@);
    nodes.push(Node::Eoi);
    proof {
        assert(shapes_of(nodes@) =~= before + seq![Shape::Eoi]);
    }
    Ok(nodes)
}

} // verus!
