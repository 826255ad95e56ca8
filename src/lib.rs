//! A two-pass assembler for LC-3 assembly programs.
//!
//! Source text is read into a sequence of syntax nodes ([`node::Node`]). The
//! first pass assigns every label a word offset; the second pass encodes every
//! node into 16-bit words through a bit-level writer. The symbol table can be
//! rendered as a text listing. [`laws`] states what holds of every assembly.
pub mod assembler;
pub mod error;
pub mod escape;
pub mod laws;
pub mod node;
pub mod parser;
pub mod symbol_table;
pub mod util;
pub mod writer;

pub use error::{Error, ErrorView, Field};
pub use node::{AluOp, BaseOp, Instr, Node, Operand, PcOp, Span, TrapRoutine};
pub use util::{parse_number_literal, parse_pc_pair, parse_register_literal, InvalidLiteral, PCOffsetTarget};
pub use writer::{BitVecWriter, Overflow};
pub use escape::{stringz_words, unescape_stringz};
pub use symbol_table::{table_to_string, Symbol, SymbolTable};
pub use assembler::first_pass;
pub use assembler::{assemble, assemble_from_pairs, assemble_text, second_pass, Assembly};
pub use parser::{line_column, parse, AsmParser};
