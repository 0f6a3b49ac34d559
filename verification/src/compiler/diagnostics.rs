//! What the front end reports about a program that it cannot accept.

use crate::compiler::registers::ParseIntError;
use crate::compiler::syntax::ResolvedValue;
use crate::names::Symbol;
use crate::span::Span;
use vstd::prelude::*;

verus! {

/// The kind of a value.
#[derive(Clone, Copy, Debug, PartialEq, Eq, Structural, Hash)]
pub enum ValueKind {
    Int,
    Ident,
    Block,
}

/// What stands where something else was expected.
#[derive(Clone, Copy, Debug, PartialEq, Eq, Structural, Hash)]
pub enum Expected {
    Number,
    Register,
    Label,
    Message,
    CodeBlock,
}

/// Why a program is refused.
#[derive(Clone, Copy, Debug, PartialEq, Eq)]
#[allow(inconsistent_fields)]
pub enum DiagnosticKind {
    /// The expansion did not come to rest within its limit of passes.
    RecursionLimit,
    /// A name is defined a second time in one block.
    DefineShadow,
    /// A constant is not defined in the block or in a block around it.
    UnresolvedConstant,
    /// No macro of that name can be seen from the file of the call.
    UnresolvedMacro,
    /// No label of that name can be seen from the block.
    UnresolvedLabel,
    /// A value is of another kind than its place asks for.
    TypeMismatch { expected: Expected, found: ValueKind },
    /// A macro is called with too few or too many arguments.
    ArgumentCount { at_least: usize, at_most: usize, found: usize },
    /// No register of that name is declared.
    UnknownRegister { name: Symbol },
    /// What stands behind the `%` of a register is no number.
    InvalidModulus { error: ParseIntError },
    /// No branch of the macro takes the arguments.
    NoMatchingBranch,
    /// Two branches of a macro take a common list of arguments.
    MacroPatternConflict,
    /// A name is no handle of the table of names.
    UnknownSymbol,
}

/// A refusal with the place that it is about.
#[derive(Clone, Copy, Debug, PartialEq, Eq)]
pub struct Diagnostic {
    pub span: Span,
    pub kind: DiagnosticKind,
}

/// The kind of a value.
pub open spec fn kind_of(value: ResolvedValue) -> ValueKind {
    match value {
        ResolvedValue::Int(_) => ValueKind::Int,
        ResolvedValue::Ident(_) => ValueKind::Ident,
        ResolvedValue::Block(_) => ValueKind::Block,
    }
}

/// The kind of a value.
pub fn value_kind(value: &ResolvedValue) -> (kind: ValueKind)
    ensures
        kind == kind_of(*value),
{
    match value {
        ResolvedValue::Int(_) => ValueKind::Int,
        ResolvedValue::Ident(_) => ValueKind::Ident,
        ResolvedValue::Block(_) => ValueKind::Block,
    }
}

} // verus!
