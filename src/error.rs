//! The assembler's errors.
use vstd::prelude::*;
use crate::node::Span;

verus! {

/// The encoded field that a value did not fit in.
#[derive(Clone, Copy, Debug, PartialEq, Eq, Structural)]
pub enum Field {
    DestinationRegister,
    SourceRegister,
    SourceRegister1,
    SourceRegister2,
    BaseRegister,
    DestinationOrSourceRegister,
    Immediate,
    Offset,
    PcOffset,
    TrapVector,
    FillContent,
    Origin,
}

/// Why an assembly failed.
#[derive(Debug)]
pub enum Error {
    /// The source text could not be parsed.
    Syntax { message: String, span: Span },
    /// A numeric operand is not a decimal, `#decimal` or `x`-prefixed hex literal.
    NumericLiteral { span: Span },
    /// A `.STRINGZ` holds an escape sequence that is not recognised.
    InvalidEscape { span: Span },
    /// A label is declared a second time.
    DuplicateSymbol { name: String, span: Span, first: Span },
    /// A PC-relative operand names no declared label.
    UndefinedSymbol { name: String, span: Span, known: Vec<String> },
    /// A value does not fit in the bits of its field.
    FieldOverflow { field: Field, value: i64, span: Span },
    /// A block size is negative, or the image would not fit in the 16-bit
    /// address space (the origin word and 65536 program words). This is a
    /// machine limit rather than a kind of its own among the assembler's
    /// errors: such programs cannot be loaded.
    SizeOutOfRange { span: Span },
    /// Reading the input or writing the output failed.
    Io { message: String },
    /// The input is not valid UTF-8.
    Encoding { message: String },
}

/// What an [`Error`] says, over plain sequences.
pub ghost enum ErrorView {
    Syntax { message: Seq<char>, span: Span },
    NumericLiteral { span: Span },
    InvalidEscape { span: Span },
    DuplicateSymbol { name: Seq<char>, span: Span, first: Span },
    UndefinedSymbol { name: Seq<char>, span: Span, known: Seq<Seq<char>> },
    FieldOverflow { field: Field, value: int, span: Span },
    SizeOutOfRange { span: Span },
    Io { message: Seq<char> },
    Encoding { message: Seq<char> },
}

impl View for Error {
    type V = ErrorView;

    open spec fn view(&self) -> ErrorView {
        match self {
            Error::Syntax { message, span } => ErrorView::Syntax { message: message@, span: *span },
            Error::NumericLiteral { span } => ErrorView::NumericLiteral { span: *span },
            Error::InvalidEscape { span } => ErrorView::InvalidEscape { span: *span },
            Error::DuplicateSymbol { name, span, first } => ErrorView::DuplicateSymbol {
                name: name@,
                span: *span,
                first: *first,
            },
            Error::UndefinedSymbol { name, span, known } => ErrorView::UndefinedSymbol {
                name: name@,
                span: *span,
                known: known@.map_values(|k: String| k@),
            },
            Error::FieldOverflow { field, value, span } => ErrorView::FieldOverflow {
                field: *field,
                value: *value as int,
                span: *span,
            },
            Error::SizeOutOfRange { span } => ErrorView::SizeOutOfRange { span: *span },
            Error::Io { message } => ErrorView::Io { message: message@ },
            Error::Encoding { message } => ErrorView::Encoding { message: message@ },
        }
    }
}

} // verus!
