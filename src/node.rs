//! The syntax nodes that the assembler consumes.
use vstd::prelude::*;

verus! {

/// A range of byte positions in the source text.
#[derive(Clone, Copy, Debug, PartialEq, Eq, Structural)]
pub struct Span {
    pub start: usize,
    pub end: usize,
}

/// An operand: the exact source text of a register, a number or a label,
/// with the place it came from.
#[derive(Debug)]
pub struct Operand {
    pub text: String,
    pub span: Span,
}

/// The two arithmetic/logic operations.
#[derive(Clone, Copy, Debug, PartialEq, Eq, Structural)]
pub enum AluOp {
    Add,
    And,
}

/// Loads and stores addressed by a PC-relative label.
#[derive(Clone, Copy, Debug, PartialEq, Eq, Structural)]
pub enum PcOp {
    Ld,
    Ldi,
    Lea,
    St,
    Sti,
}

/// Loads and stores addressed by a base register and an offset.
#[derive(Clone, Copy, Debug, PartialEq, Eq, Structural)]
pub enum BaseOp {
    Ldr,
    Str,
}

/// The system routines that a trap mnemonic names.
#[derive(Clone, Copy, Debug, PartialEq, Eq, Structural)]
pub enum TrapRoutine {
    Getc,
    Out,
    Puts,
    In,
    Putsp,
    Halt,
}

/// One machine instruction, with its operands in source order.
#[derive(Debug)]
#[allow(inconsistent_fields)]
pub enum Instr {
    /// `ADD`/`AND` with two source registers.
    Alu { op: AluOp, dr: Operand, sr1: Operand, sr2: Operand },
    /// `ADD`/`AND` with an immediate.
    AluImm { op: AluOp, dr: Operand, sr1: Operand, imm: Operand },
    Not { dr: Operand, sr: Operand },
    /// `BR` with its condition letters (possibly empty) and its target.
    Br { flags: Operand, target: Operand },
    Jmp { base: Operand },
    Jsr { target: Operand },
    Jsrr { base: Operand },
    PcRel { op: PcOp, reg: Operand, target: Operand },
    BaseRel { op: BaseOp, reg: Operand, base: Operand, offset: Operand },
    Ret,
    Rti,
    /// `TRAP` with an explicit vector.
    Trap { vector: Operand },
    Nop,
}

/// A top-level syntax node.
#[derive(Debug)]
pub enum Node {
    LabelDecl { name: String, span: Span },
    Instruction { instr: Instr, span: Span },
    /// A trap mnemonic such as `HALT`.
    TrapCode { routine: TrapRoutine, span: Span },
    Orig { value: Operand },
    Fill { value: Operand },
    Blkw { count: Operand },
    /// `.STRINGZ`, holding the text between the quotes, still escaped, and
    /// the span of the whole directive.
    Stringz { text: Operand, span: Span },
    End,
    Eoi,
}

impl TrapRoutine {
    /// The trap vector of the routine.
    pub open spec fn spec_vector(self) -> u8 {
        match self {
            TrapRoutine::Getc => 0x20,
            TrapRoutine::Out => 0x21,
            TrapRoutine::Puts => 0x22,
            TrapRoutine::In => 0x23,
            TrapRoutine::Putsp => 0x24,
            TrapRoutine::Halt => 0x25,
        }
    }

    /// The trap vector of the routine.
    pub fn vector(self) -> (r: u8)
        ensures
            r == self.spec_vector(),
    {
        match self {
            TrapRoutine::Getc => 0x20,
            TrapRoutine::Out => 0x21,
            TrapRoutine::Puts => 0x22,
            TrapRoutine::In => 0x23,
            TrapRoutine::Putsp => 0x24,
            TrapRoutine::Halt => 0x25,
        }
    }
}

} // verus!
