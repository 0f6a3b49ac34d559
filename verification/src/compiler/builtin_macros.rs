//! The macros that the language brings along: `add`, `goto`, `solved-goto`,
//! `input`, `halt` and `print`. Each checks its arguments and becomes one
//! primitive instruction.

use crate::compiler::blocks::{blocks_wf, resolve_value, BlockInfoView};
use crate::compiler::diagnostics::{kind_of, value_kind, Diagnostic, DiagnosticKind, Expected};
use crate::compiler::expansion_info::{BuiltinMacro, ExpansionInfo, Macro, MacroEntry};
use crate::compiler::registers::{find_register, parsed_reference, Puzzle};
use crate::compiler::syntax::{
    BlockID, Code, Instruction, LabelReference, Primitive, RegisterReference, ResolvedValue, Value,
};
use crate::names::{Interner, Symbol};
use crate::span::{Span, WithSpan};
use std::sync::Arc;
use vstd::prelude::*;

verus! {

/// What reading a register gives, and the table of names after it.
pub ghost struct RegisterOutcome {
    pub result: Result<RegisterReference, Diagnostic>,
    pub names: Seq<Seq<u8>>,
}

/// What a built-in macro becomes, and the table of names after it.
pub ghost struct PrimitiveOutcome {
    pub result: Result<Primitive, Diagnostic>,
    pub names: Seq<Seq<u8>>,
}

/// The register that an argument names: the argument must stand for an
/// identifier, which is read as a register's name with an optional modulus,
/// and the register must be declared.
pub open spec fn expect_reg_outcome(
    blocks: Seq<BlockInfoView>,
    puzzles: Seq<Puzzle>,
    names: Seq<Seq<u8>>,
    block: BlockID,
    arg: WithSpan<Value>,
) -> RegisterOutcome {
    match resolve_value(blocks, block, arg.value) {
        Some(ResolvedValue::Ident(reg_name)) => {
            if reg_name.0 >= names.len() {
                RegisterOutcome {
                    result: Err(Diagnostic { span: arg.span, kind: DiagnosticKind::UnknownSymbol }),
                    names,
                }
            } else {
                let parsed = parsed_reference(names, WithSpan { value: reg_name, span: arg.span });
                match parsed.0 {
                    Err(error) => RegisterOutcome {
                        result: Err(
                            Diagnostic {
                                span: arg.span,
                                kind: DiagnosticKind::InvalidModulus { error },
                            },
                        ),
                        names: parsed.1,
                    },
                    Ok(reference) => RegisterOutcome {
                        result: if find_register(puzzles, reference.reg_name.value) is Some {
                            Ok(reference)
                        } else {
                            Err(
                                Diagnostic {
                                    span: arg.span,
                                    kind: DiagnosticKind::UnknownRegister { name: reg_name },
                                },
                            )
                        },
                        names: parsed.1,
                    },
                }
            }
        },
        Some(other) => RegisterOutcome {
            result: Err(
                Diagnostic {
                    span: arg.span,
                    kind: DiagnosticKind::TypeMismatch {
                        expected: Expected::Register,
                        found: kind_of(other),
                    },
                },
            ),
            names,
        },
        None => RegisterOutcome {
            result: Err(Diagnostic { span: arg.span, kind: DiagnosticKind::UnresolvedConstant }),
            names,
        },
    }
}

/// The identifier that an argument stands for, where one of the given kind is
/// expected.
pub open spec fn expect_ident(
    blocks: Seq<BlockInfoView>,
    block: BlockID,
    arg: WithSpan<Value>,
    expected: Expected,
) -> Result<Symbol, Diagnostic> {
    match resolve_value(blocks, block, arg.value) {
        Some(ResolvedValue::Ident(name)) => Ok(name),
        Some(other) => Err(
            Diagnostic {
                span: arg.span,
                kind: DiagnosticKind::TypeMismatch { expected, found: kind_of(other) },
            },
        ),
        None => Err(Diagnostic { span: arg.span, kind: DiagnosticKind::UnresolvedConstant }),
    }
}

/// The label that an argument names, as seen from the block of the call.
pub open spec fn expect_label_outcome(blocks: Seq<BlockInfoView>, block: BlockID, arg: WithSpan<Value>) -> Result<
    WithSpan<LabelReference>,
    Diagnostic,
> {
    match expect_ident(blocks, block, arg, Expected::Label) {
        Ok(name) => Ok(WithSpan { value: LabelReference { name, block_id: block }, span: arg.span }),
        Err(diagnostic) => Err(diagnostic),
    }
}

/// The number that an argument stands for.
pub open spec fn expect_number_outcome(blocks: Seq<BlockInfoView>, block: BlockID, arg: WithSpan<Value>) -> Result<
    WithSpan<u64>,
    Diagnostic,
> {
    match resolve_value(blocks, block, arg.value) {
        Some(ResolvedValue::Int(number)) => Ok(WithSpan { value: number, span: arg.span }),
        Some(other) => Err(
            Diagnostic {
                span: arg.span,
                kind: DiagnosticKind::TypeMismatch { expected: Expected::Number, found: kind_of(other) },
            },
        ),
        None => Err(Diagnostic { span: arg.span, kind: DiagnosticKind::UnresolvedConstant }),
    }
}

/// The message that an argument stands for.
pub open spec fn expect_message_outcome(blocks: Seq<BlockInfoView>, block: BlockID, arg: WithSpan<Value>) -> Result<
    WithSpan<Symbol>,
    Diagnostic,
> {
    match expect_ident(blocks, block, arg, Expected::Message) {
        Ok(name) => Ok(WithSpan { value: name, span: arg.span }),
        Err(diagnostic) => Err(diagnostic),
    }
}

/// The refusal of a call with a wrong number of arguments.
pub open spec fn argument_count(span: Span, at_least: usize, at_most: usize, found: nat) -> Diagnostic {
    Diagnostic {
        span,
        kind: DiagnosticKind::ArgumentCount { at_least, at_most, found: found as usize },
    }
}

/// How many bytes at the start of `text` are `byte`.
pub open spec fn leading(text: Seq<u8>, byte: u8) -> nat
    decreases text.len(),
{
    if text.len() > 0 && text[0] == byte {
        1 + leading(text.drop_first(), byte)
    } else {
        0
    }
}

/// How many bytes at the end of `text` are `byte`.
pub open spec fn trailing(text: Seq<u8>, byte: u8) -> nat
    decreases text.len(),
{
    if text.len() > 0 && text.last() == byte {
        1 + trailing(text.drop_last(), byte)
    } else {
        0
    }
}

/// `text` without the double quotes at its start and at its end.
pub open spec fn trim_quotes(text: Seq<u8>) -> Seq<u8> {
    if leading(text, 34u8) >= text.len() {
        Seq::empty()
    } else {
        text.subrange(leading(text, 34u8) as int, text.len() - trailing(text, 34u8))
    }
}

/// `add reg int`: adds a number to a register.
pub open spec fn add_outcome(
    blocks: Seq<BlockInfoView>,
    puzzles: Seq<Puzzle>,
    names: Seq<Seq<u8>>,
    block: BlockID,
    args: Seq<WithSpan<Value>>,
    span: Span,
) -> PrimitiveOutcome {
    if args.len() != 2 {
        PrimitiveOutcome { result: Err(argument_count(span, 2, 2, args.len())), names }
    } else {
        match expect_number_outcome(blocks, block, args[1]) {
            Err(diagnostic) => PrimitiveOutcome { result: Err(diagnostic), names },
            Ok(amt) => {
                let register = expect_reg_outcome(blocks, puzzles, names, block, args[0]);
                PrimitiveOutcome {
                    result: match register.result {
                        Ok(register) => Ok(Primitive::Add { amt, register }),
                        Err(diagnostic) => Err(diagnostic),
                    },
                    names: register.names,
                }
            },
        }
    }
}

/// `goto label`: jumps to a label.
pub open spec fn goto_outcome(
    blocks: Seq<BlockInfoView>,
    names: Seq<Seq<u8>>,
    block: BlockID,
    args: Seq<WithSpan<Value>>,
    span: Span,
) -> PrimitiveOutcome {
    if args.len() != 1 {
        PrimitiveOutcome { result: Err(argument_count(span, 1, 1, args.len())), names }
    } else {
        PrimitiveOutcome {
            result: match expect_label_outcome(blocks, block, args[0]) {
                Ok(label) => Ok(Primitive::Goto { label }),
                Err(diagnostic) => Err(diagnostic),
            },
            names,
        }
    }
}

/// `solved-goto reg label`: jumps to a label if a register is zero.
pub open spec fn solved_goto_outcome(
    blocks: Seq<BlockInfoView>,
    puzzles: Seq<Puzzle>,
    names: Seq<Seq<u8>>,
    block: BlockID,
    args: Seq<WithSpan<Value>>,
    span: Span,
) -> PrimitiveOutcome {
    if args.len() != 2 {
        PrimitiveOutcome { result: Err(argument_count(span, 2, 2, args.len())), names }
    } else {
        match expect_label_outcome(blocks, block, args[1]) {
            Err(diagnostic) => PrimitiveOutcome { result: Err(diagnostic), names },
            Ok(label) => {
                let register = expect_reg_outcome(blocks, puzzles, names, block, args[0]);
                PrimitiveOutcome {
                    result: match register.result {
                        Ok(register) => Ok(Primitive::SolvedGoto { label, register }),
                        Err(diagnostic) => Err(diagnostic),
                    },
                    names: register.names,
                }
            },
        }
    }
}

/// `input reg msg`: asks for a number to add to a register. The message loses
/// the double quotes around it.
pub open spec fn input_outcome(
    blocks: Seq<BlockInfoView>,
    puzzles: Seq<Puzzle>,
    names: Seq<Seq<u8>>,
    block: BlockID,
    args: Seq<WithSpan<Value>>,
    span: Span,
) -> PrimitiveOutcome {
    if args.len() != 2 {
        PrimitiveOutcome { result: Err(argument_count(span, 2, 2, args.len())), names }
    } else {
        let register = expect_reg_outcome(blocks, puzzles, names, block, args[0]);
        match register.result {
            Err(diagnostic) => PrimitiveOutcome { result: Err(diagnostic), names: register.names },
            Ok(reference) => match expect_message_outcome(blocks, block, args[1]) {
                Err(diagnostic) => PrimitiveOutcome { result: Err(diagnostic), names: register.names },
                Ok(raw) => {
                    if raw.value.0 >= register.names.len() {
                        PrimitiveOutcome {
                            result: Err(
                                Diagnostic { span: raw.span, kind: DiagnosticKind::UnknownSymbol },
                            ),
                            names: register.names,
                        }
                    } else {
                        let text = trim_quotes(register.names[raw.value.0 as int]);
                        PrimitiveOutcome {
                            result: Ok(
                                Primitive::Input {
                                    message: WithSpan {
                                        value: Interner::handle_for(register.names, text),
                                        span: raw.span,
                                    },
                                    register: reference,
                                },
                            ),
                            names: Interner::with_name(register.names, text),
                        }
                    }
                },
            },
        }
    }
}

/// The message and the optional register of `halt msg [reg]` and of
/// `print msg [reg]`.
pub open spec fn print_like_outcome(
    blocks: Seq<BlockInfoView>,
    puzzles: Seq<Puzzle>,
    names: Seq<Seq<u8>>,
    block: BlockID,
    args: Seq<WithSpan<Value>>,
    span: Span,
) -> (Result<(Option<RegisterReference>, WithSpan<Symbol>), Diagnostic>, Seq<Seq<u8>>) {
    if args.len() == 0 || args.len() > 2 {
        (Err(argument_count(span, 1, 2, args.len())), names)
    } else {
        let register = if args.len() == 2 {
            let outcome = expect_reg_outcome(blocks, puzzles, names, block, args[1]);
            match outcome.result {
                Ok(reference) => RegisterOptionOutcome { result: Ok(Some(reference)), names: outcome.names },
                Err(diagnostic) => RegisterOptionOutcome { result: Err(diagnostic), names: outcome.names },
            }
        } else {
            RegisterOptionOutcome { result: Ok(None), names }
        };
        match register.result {
            Err(diagnostic) => (Err(diagnostic), register.names),
            Ok(maybe_reg) => match expect_message_outcome(blocks, block, args[0]) {
                Ok(message) => (Ok((maybe_reg, message)), register.names),
                Err(diagnostic) => (Err(diagnostic), register.names),
            },
        }
    }
}

/// What reading an optional register gives, and the table of names after it.
pub ghost struct RegisterOptionOutcome {
    pub result: Result<Option<RegisterReference>, Diagnostic>,
    pub names: Seq<Seq<u8>>,
}

/// What the call of a built-in macro becomes.
pub open spec fn builtin_outcome(
    kind: BuiltinMacro,
    blocks: Seq<BlockInfoView>,
    puzzles: Seq<Puzzle>,
    names: Seq<Seq<u8>>,
    block: BlockID,
    args: Seq<WithSpan<Value>>,
    span: Span,
) -> PrimitiveOutcome {
    match kind {
        BuiltinMacro::Add => add_outcome(blocks, puzzles, names, block, args, span),
        BuiltinMacro::Goto => goto_outcome(blocks, names, block, args, span),
        BuiltinMacro::SolvedGoto => solved_goto_outcome(blocks, puzzles, names, block, args, span),
        BuiltinMacro::Input => input_outcome(blocks, puzzles, names, block, args, span),
        BuiltinMacro::Halt => {
            let outcome = print_like_outcome(blocks, puzzles, names, block, args, span);
            PrimitiveOutcome {
                result: match outcome.0 {
                    Ok((register, message)) => Ok(Primitive::Halt { message, register }),
                    Err(diagnostic) => Err(diagnostic),
                },
                names: outcome.1,
            }
        },
        BuiltinMacro::Print => {
            let outcome = print_like_outcome(blocks, puzzles, names, block, args, span);
            PrimitiveOutcome {
                result: match outcome.0 {
                    Ok((register, message)) => Ok(Primitive::Print { message, register }),
                    Err(diagnostic) => Err(diagnostic),
                },
                names: outcome.1,
            }
        },
    }
}

/// The table of names keeps what it held.
pub open spec fn names_kept(before: &Interner, after: &Interner) -> bool {
    forall|known: Symbol|
        before.knows(known) ==> after.knows(known) && after.text_of(known) == before.text_of(known)
}

/// The register that an argument names.
pub fn expect_reg(
    reg_value: &WithSpan<Value>,
    block_id: BlockID,
    syntax: &ExpansionInfo,
    names: &mut Interner,
) -> (register: Result<RegisterReference, Diagnostic>)
    requires
        blocks_wf(syntax.block_info@),
        old(names).wf(),
    ensures
        final(names).wf(),
        names_kept(old(names), final(names)),
        (RegisterOutcome { result: register, names: final(names)@ }) == expect_reg_outcome(
            syntax.block_info@,
            syntax.puzzles(),
            old(names)@,
            block_id,
            *reg_value,
        ),
{
    match syntax.block_info.resolve_ref(block_id, &reg_value.value) {
        Some(ResolvedValue::Ident(reg_name)) => {
            if reg_name.0 >= names.len() {
                return Err(Diagnostic { span: reg_value.span, kind: DiagnosticKind::UnknownSymbol });
            }
            match RegisterReference::parse(WithSpan { value: *reg_name, span: reg_value.span }, names) {
                Err(error) => Err(
                    Diagnostic {
                        span: reg_value.span,
                        kind: DiagnosticKind::InvalidModulus { error },
                    },
                ),
                Ok(reference) => {
                    let found = match &syntax.registers {
                        Some(declaration) => declaration.value.get_register(&reference).is_some(),
                        None => false,
                    };
                    if found {
                        Ok(reference)
                    } else {
                        Err(
                            Diagnostic {
                                span: reg_value.span,
                                kind: DiagnosticKind::UnknownRegister { name: *reg_name },
                            },
                        )
                    }
                },
            }
        },
        Some(other) => Err(
            Diagnostic {
                span: reg_value.span,
                kind: DiagnosticKind::TypeMismatch {
                    expected: Expected::Register,
                    found: value_kind(other),
                },
            },
        ),
        None => Err(Diagnostic { span: reg_value.span, kind: DiagnosticKind::UnresolvedConstant }),
    }
}

fn expect_ident_exec(
    value: &WithSpan<Value>,
    block_id: BlockID,
    syntax: &ExpansionInfo,
    expected: Expected,
) -> (name: Result<Symbol, Diagnostic>)
    requires
        blocks_wf(syntax.block_info@),
    ensures
        name == expect_ident(syntax.block_info@, block_id, *value, expected),
{
    match syntax.block_info.resolve_ref(block_id, &value.value) {
        Some(ResolvedValue::Ident(name)) => Ok(*name),
        Some(other) => Err(
            Diagnostic {
                span: value.span,
                kind: DiagnosticKind::TypeMismatch { expected, found: value_kind(other) },
            },
        ),
        None => Err(Diagnostic { span: value.span, kind: DiagnosticKind::UnresolvedConstant }),
    }
}

/// The label that an argument names, as seen from the block of the call.
pub fn expect_label(label_value: &WithSpan<Value>, block_id: BlockID, syntax: &ExpansionInfo) -> (label:
    Result<WithSpan<LabelReference>, Diagnostic>)
    requires
        blocks_wf(syntax.block_info@),
    ensures
        label == expect_label_outcome(syntax.block_info@, block_id, *label_value),
{
    match expect_ident_exec(label_value, block_id, syntax, Expected::Label) {
        Ok(name) => Ok(
            WithSpan { value: LabelReference { name, block_id }, span: label_value.span },
        ),
        Err(diagnostic) => Err(diagnostic),
    }
}

fn expect_number(value: &WithSpan<Value>, block_id: BlockID, syntax: &ExpansionInfo) -> (number: Result<
    WithSpan<u64>,
    Diagnostic,
>)
    requires
        blocks_wf(syntax.block_info@),
    ensures
        number == expect_number_outcome(syntax.block_info@, block_id, *value),
{
    match syntax.block_info.resolve_ref(block_id, &value.value) {
        Some(ResolvedValue::Int(number)) => Ok(WithSpan { value: *number, span: value.span }),
        Some(other) => Err(
            Diagnostic {
                span: value.span,
                kind: DiagnosticKind::TypeMismatch {
                    expected: Expected::Number,
                    found: value_kind(other),
                },
            },
        ),
        None => Err(Diagnostic { span: value.span, kind: DiagnosticKind::UnresolvedConstant }),
    }
}

fn expect_message(value: &WithSpan<Value>, block_id: BlockID, syntax: &ExpansionInfo) -> (message:
    Result<WithSpan<Symbol>, Diagnostic>)
    requires
        blocks_wf(syntax.block_info@),
    ensures
        message == expect_message_outcome(syntax.block_info@, block_id, *value),
{
    match expect_ident_exec(value, block_id, syntax, Expected::Message) {
        Ok(name) => Ok(WithSpan { value: name, span: value.span }),
        Err(diagnostic) => Err(diagnostic),
    }
}

/// `text` without the double quotes at its start and at its end.
pub fn trim_quotes_exec(text: &[u8]) -> (trimmed: Vec<u8>)
    ensures
        trimmed@ == trim_quotes(text@),
{
    let len = text.len();
    let mut start: usize = 0;
    assert(text@.skip(0) =~= text@);
    while start < len && text[start] == 34
        invariant
            len == text@.len(),
            start <= len,
            leading(text@, 34u8) == start + leading(text@.skip(start as int), 34u8),
        decreases len - start,
    {
        assert(text@.skip(start as int).drop_first() =~= text@.skip(start + 1));
        start += 1;
    }
    if start == len {
        assert(text@.skip(start as int).len() == 0);
        return Vec::new();
    }
    assert(text@.skip(start as int)[0] == text@[start as int]);
    let mut end: usize = len;
    assert(text@.take(len as int) =~= text@);
    while text[end - 1] == 34
        invariant
            len == text@.len(),
            start < len,
            text@[start as int] != 34,
            start < end <= len,
            trailing(text@, 34u8) == (len - end) + trailing(text@.take(end as int), 34u8),
        decreases end,
    {
        assert(text@.take(end as int).drop_last() =~= text@.take(end - 1));
        end -= 1;
    }
    assert(text@.take(end as int).last() == text@[end - 1]);
    let mut trimmed: Vec<u8> = Vec::new();
    let mut i: usize = start;
    while i < end
        invariant
            start <= i <= end <= len,
            len == text@.len(),
            trimmed@ == text@.subrange(start as int, i as int),
        decreases end - i,
    {
        trimmed.push(text[i]);
        assert(text@.subrange(start as int, i + 1) =~= text@.subrange(start as int, i as int).push(
            text@[i as int],
        ));
        i += 1;
    }
    trimmed
}

fn wrap(primitive: Primitive) -> (code: Vec<Instruction>)
    ensures
        code@ == seq![Instruction::Code(Code::Primitive(primitive))],
{
    let mut code: Vec<Instruction> = Vec::new();
    code.push(Instruction::Code(Code::Primitive(primitive)));
    assert(code@ =~= seq![Instruction::Code(Code::Primitive(primitive))]);
    code
}

/// The message and the optional register of `halt` and of `print`.
pub fn print_like(
    syntax: &ExpansionInfo,
    args: &WithSpan<Arc<Vec<WithSpan<Value>>>>,
    block_id: BlockID,
    names: &mut Interner,
) -> (parts: Result<(Option<RegisterReference>, WithSpan<Symbol>), Diagnostic>)
    requires
        blocks_wf(syntax.block_info@),
        old(names).wf(),
    ensures
        final(names).wf(),
        names_kept(old(names), final(names)),
        (parts, final(names)@) == print_like_outcome(
            syntax.block_info@,
            syntax.puzzles(),
            old(names)@,
            block_id,
            args.value@,
            args.span,
        ),
{
    let list: &Vec<WithSpan<Value>> = &args.value;
    if list.len() == 0 || list.len() > 2 {
        return Err(
            Diagnostic {
                span: args.span,
                kind: DiagnosticKind::ArgumentCount { at_least: 1, at_most: 2, found: list.len() },
            },
        );
    }
    let maybe_reg = if list.len() == 2 {
        match expect_reg(&list[1], block_id, syntax, names) {
            Ok(register) => Some(register),
            Err(diagnostic) => {
                return Err(diagnostic);
            },
        }
    } else {
        None
    };
    match expect_message(&list[0], block_id, syntax) {
        Ok(message) => Ok((maybe_reg, message)),
        Err(diagnostic) => Err(diagnostic),
    }
}

/// Expands the call of a built-in macro into the one primitive instruction
/// that it stands for, or says what is wrong with its arguments.
pub fn expand_builtin(
    kind: BuiltinMacro,
    syntax: &ExpansionInfo,
    args: &WithSpan<Arc<Vec<WithSpan<Value>>>>,
    block_id: BlockID,
    names: &mut Interner,
) -> (code: Result<Vec<Instruction>, Diagnostic>)
    requires
        blocks_wf(syntax.block_info@),
        old(names).wf(),
    ensures
        final(names).wf(),
        names_kept(old(names), final(names)),
        final(names)@ == builtin_outcome(
            kind,
            syntax.block_info@,
            syntax.puzzles(),
            old(names)@,
            block_id,
            args.value@,
            args.span,
        ).names,
        match builtin_outcome(
            kind,
            syntax.block_info@,
            syntax.puzzles(),
            old(names)@,
            block_id,
            args.value@,
            args.span,
        ).result {
            Ok(primitive) => code matches Ok(list) && list@ == seq![
                Instruction::Code(Code::Primitive(primitive)),
            ],
            Err(diagnostic) => code == Err::<Vec<Instruction>, _>(diagnostic),
        },
{
    let list: &Vec<WithSpan<Value>> = &args.value;
    match kind {
        BuiltinMacro::Add => {
            if list.len() != 2 {
                return Err(
                    Diagnostic {
                        span: args.span,
                        kind: DiagnosticKind::ArgumentCount {
                            at_least: 2,
                            at_most: 2,
                            found: list.len(),
                        },
                    },
                );
            }
            let amt = match expect_number(&list[1], block_id, syntax) {
                Ok(amt) => amt,
                Err(diagnostic) => {
                    return Err(diagnostic);
                },
            };
            match expect_reg(&list[0], block_id, syntax, names) {
                Ok(register) => Ok(wrap(Primitive::Add { amt, register })),
                Err(diagnostic) => Err(diagnostic),
            }
        },
        BuiltinMacro::Goto => {
            if list.len() != 1 {
                return Err(
                    Diagnostic {
                        span: args.span,
                        kind: DiagnosticKind::ArgumentCount {
                            at_least: 1,
                            at_most: 1,
                            found: list.len(),
                        },
                    },
                );
            }
            match expect_label(&list[0], block_id, syntax) {
                Ok(label) => Ok(wrap(Primitive::Goto { label })),
                Err(diagnostic) => Err(diagnostic),
            }
        },
        BuiltinMacro::SolvedGoto => {
            if list.len() != 2 {
                return Err(
                    Diagnostic {
                        span: args.span,
                        kind: DiagnosticKind::ArgumentCount {
                            at_least: 2,
                            at_most: 2,
                            found: list.len(),
                        },
                    },
                );
            }
            let label = match expect_label(&list[1], block_id, syntax) {
                Ok(label) => label,
                Err(diagnostic) => {
                    return Err(diagnostic);
                },
            };
            match expect_reg(&list[0], block_id, syntax, names) {
                Ok(register) => Ok(wrap(Primitive::SolvedGoto { label, register })),
                Err(diagnostic) => Err(diagnostic),
            }
        },
        BuiltinMacro::Input => {
            if list.len() != 2 {
                return Err(
                    Diagnostic {
                        span: args.span,
                        kind: DiagnosticKind::ArgumentCount {
                            at_least: 2,
                            at_most: 2,
                            found: list.len(),
                        },
                    },
                );
            }
            let register = match expect_reg(&list[0], block_id, syntax, names) {
                Ok(register) => register,
                Err(diagnostic) => {
                    return Err(diagnostic);
                },
            };
            let raw = match expect_message(&list[1], block_id, syntax) {
                Ok(raw) => raw,
                Err(diagnostic) => {
                    return Err(diagnostic);
                },
            };
            if raw.value.0 >= names.len() {
                return Err(Diagnostic { span: raw.span, kind: DiagnosticKind::UnknownSymbol });
            }
            let text = trim_quotes_exec(names.text(raw.value).as_slice());
            let message = names.intern(text.as_slice());
            Ok(wrap(Primitive::Input { message: WithSpan { value: message, span: raw.span }, register }))
        },
        BuiltinMacro::Halt => {
            match print_like(syntax, args, block_id, names) {
                Ok((register, message)) => Ok(wrap(Primitive::Halt { message, register })),
                Err(diagnostic) => Err(diagnostic),
            }
        },
        BuiltinMacro::Print => {
            match print_like(syntax, args, block_id, names) {
                Ok((register, message)) => Ok(wrap(Primitive::Print { message, register })),
                Err(diagnostic) => Err(diagnostic),
            }
        },
    }
}

/// The names of the built-in macros with what each stands for, in the order
/// of `builtin_macros`.
pub open spec fn builtin_names() -> Seq<(Seq<u8>, BuiltinMacro)> {
    seq![
        (seq![97u8, 100u8, 100u8], BuiltinMacro::Add),
        (seq![103u8, 111u8, 116u8, 111u8], BuiltinMacro::Goto),
        (
            seq![115u8, 111u8, 108u8, 118u8, 101u8, 100u8, 45u8, 103u8, 111u8, 116u8, 111u8],
            BuiltinMacro::SolvedGoto,
        ),
        (seq![105u8, 110u8, 112u8, 117u8, 116u8], BuiltinMacro::Input),
        (seq![104u8, 97u8, 108u8, 116u8], BuiltinMacro::Halt),
        (seq![112u8, 114u8, 105u8, 110u8, 116u8], BuiltinMacro::Print),
    ]
}

fn builtin_entry(prelude: usize, text: Vec<u8>, kind: BuiltinMacro, names: &mut Interner) -> (entry:
    MacroEntry)
    requires
        old(names).wf(),
    ensures
        final(names).wf(),
        names_kept(old(names), final(names)),
        entry.file == prelude,
        final(names).knows(entry.name),
        final(names).text_of(entry.name) == text@,
        entry.definition.value == Macro::Builtin(kind),
        entry.definition.span == (Span { file: prelude, start: 0, len: 0 }),
{
    let name = names.intern(text.as_slice());
    MacroEntry {
        file: prelude,
        name,
        definition: WithSpan { value: Macro::Builtin(kind), span: Span { file: prelude, start: 0, len: 0 } },
    }
}

fn text_of(bytes: [u8; 11], len: usize) -> (text: Vec<u8>)
    requires
        len <= 11,
    ensures
        text@ == bytes@.take(len as int),
{
    let mut text: Vec<u8> = Vec::new();
    let mut i: usize = 0;
    while i < len
        invariant
            i <= len <= 11,
            text@ == bytes@.take(i as int),
        decreases len - i,
    {
        text.push(bytes[i]);
        assert(bytes@.take(i + 1) =~= bytes@.take(i as int).push(bytes@[i as int]));
        i += 1;
    }
    text
}

/// The built-in macros as entries of the file `prelude`: `add`, `goto`,
/// `solved-goto`, `input`, `halt` and `print`.
pub fn builtin_macros(prelude: usize, names: &mut Interner) -> (macros: Vec<MacroEntry>)
    requires
        old(names).wf(),
    ensures
        final(names).wf(),
        names_kept(old(names), final(names)),
        macros@.len() == builtin_names().len(),
        forall|i: int|
            0 <= i < macros@.len() ==> {
                let entry = #[trigger] macros@[i];
                &&& entry.file == prelude
                &&& final(names).knows(entry.name)
                &&& final(names).text_of(entry.name) == builtin_names()[i].0
                &&& entry.definition.value == Macro::Builtin(builtin_names()[i].1)
                &&& entry.definition.span == (Span { file: prelude, start: 0, len: 0 })
            },
{
    let mut macros: Vec<MacroEntry> = Vec::new();
    let add = text_of([97, 100, 100, 0, 0, 0, 0, 0, 0, 0, 0], 3);
    assert(add@ =~= builtin_names()[0].0);
    macros.push(builtin_entry(prelude, add, BuiltinMacro::Add, names));
    let goto = text_of([103, 111, 116, 111, 0, 0, 0, 0, 0, 0, 0], 4);
    assert(goto@ =~= builtin_names()[1].0);
    macros.push(builtin_entry(prelude, goto, BuiltinMacro::Goto, names));
    let solved_goto = text_of([115, 111, 108, 118, 101, 100, 45, 103, 111, 116, 111], 11);
    assert(solved_goto@ =~= builtin_names()[2].0);
    macros.push(builtin_entry(prelude, solved_goto, BuiltinMacro::SolvedGoto, names));
    let input = text_of([105, 110, 112, 117, 116, 0, 0, 0, 0, 0, 0], 5);
    assert(input@ =~= builtin_names()[3].0);
    macros.push(builtin_entry(prelude, input, BuiltinMacro::Input, names));
    let halt = text_of([104, 97, 108, 116, 0, 0, 0, 0, 0, 0, 0], 4);
    assert(halt@ =~= builtin_names()[4].0);
    macros.push(builtin_entry(prelude, halt, BuiltinMacro::Halt, names));
    let print = text_of([112, 114, 105, 110, 116, 0, 0, 0, 0, 0, 0], 5);
    assert(print@ =~= builtin_names()[5].0);
    macros.push(builtin_entry(prelude, print, BuiltinMacro::Print, names));
    macros
}

} // verus!
