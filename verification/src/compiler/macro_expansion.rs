//! The expansion of a program down to labels and primitive instructions.
//!
//! One pass walks the code once: it tags every instruction with its block,
//! enters labels into their block, binds definitions, replaces a reference to
//! a constant by the block that the constant stands for, and replaces the call
//! of a macro by what the macro becomes. Passes are repeated until one changes
//! nothing, up to a limit.

use crate::compiler::blocks::{
    blocks_wf, find_define, find_in_defines, resolve_value, with_define, with_label, with_new_block,
    BlockInfoTracker, BlockInfoView,
};
use crate::compiler::builtin_macros::{builtin_outcome, expand_builtin, names_kept};
use crate::compiler::diagnostics::{kind_of, value_kind, Diagnostic, DiagnosticKind, Expected};
use crate::compiler::expansion_info::{
    find_access, find_macro, ExpansionInfo, Macro, MacroAccess, MacroBranch, MacroEntry,
};
use crate::compiler::patterns::{pattern_defines, pattern_matches};
use crate::compiler::registers::{Puzzle, RegistersDecl};
use crate::compiler::syntax::{
    BlockID, Code, DefineResolved, Instruction, Label, MacroCall, Primitive, ResolvedValue,
    TaggedInstruction, Value,
};
use crate::names::{Interner, Symbol};
use crate::span::{Span, WithSpan};
use std::sync::Arc;
use vstd::prelude::*;

verus! {

/// What the expansion reads and does not change.
pub ghost struct Env {
    pub puzzles: Seq<Puzzle>,
    pub macros: Seq<MacroEntry>,
    pub available: Seq<MacroAccess>,
}

/// What a part of a pass has done: the blocks and the names after it, the code
/// that it has put out, what it has refused, and the first place at which it
/// changed anything.
pub ghost struct Step {
    pub blocks: Seq<BlockInfoView>,
    pub names: Seq<Seq<u8>>,
    pub code: Seq<WithSpan<TaggedInstruction>>,
    pub errors: Seq<Diagnostic>,
    pub changed: Option<Span>,
}

/// The earlier of two changes.
pub open spec fn first_of(earlier: Option<Span>, later: Option<Span>) -> Option<Span> {
    match earlier {
        Some(span) => Some(span),
        None => later,
    }
}

/// The instruction as part of the block `block`.
pub open spec fn retag(item: WithSpan<TaggedInstruction>, block: BlockID) -> WithSpan<TaggedInstruction> {
    WithSpan {
        value: TaggedInstruction { instruction: item.value.instruction, block_id: Some(block) },
        span: item.span,
    }
}

/// The code as part of the block `block`.
pub open spec fn retag_all(code: Seq<WithSpan<TaggedInstruction>>, block: BlockID) -> Seq<
    WithSpan<TaggedInstruction>,
> {
    Seq::new(code.len(), |i: int| retag(code[i], block))
}

/// Every tag names a block that exists.
pub open spec fn tags_valid(code: Seq<WithSpan<TaggedInstruction>>, blocks: nat) -> bool {
    forall|i: int|
        0 <= i < code.len() ==> match (#[trigger] code[i]).value.block_id {
            Some(block) => block.0 < blocks,
            None => true,
        }
}

/// The first `upto` arguments with what they stand for in `block`, or the
/// refusal of the first that names an unknown constant.
pub open spec fn resolve_arguments(
    blocks: Seq<BlockInfoView>,
    block: BlockID,
    args: Seq<WithSpan<Value>>,
    upto: int,
) -> Result<Seq<WithSpan<ResolvedValue>>, Diagnostic>
    decreases upto,
{
    if upto <= 0 {
        Ok(Seq::empty())
    } else {
        match resolve_arguments(blocks, block, args, upto - 1) {
            Err(diagnostic) => Err(diagnostic),
            Ok(before) => match resolve_value(blocks, block, args[upto - 1].value) {
                Some(resolved) => Ok(
                    before.push(WithSpan { value: resolved, span: args[upto - 1].span }),
                ),
                None => Err(
                    Diagnostic {
                        span: args[upto - 1].span,
                        kind: DiagnosticKind::UnresolvedConstant,
                    },
                ),
            },
        }
    }
}

/// The first branch from `from` on whose pattern takes the arguments.
pub open spec fn first_matching_branch(
    branches: Seq<WithSpan<MacroBranch>>,
    args: Seq<WithSpan<ResolvedValue>>,
    from: int,
) -> Option<int>
    decreases branches.len() - from,
{
    if from < 0 || from >= branches.len() {
        None
    } else if pattern_matches(branches[from].value.pattern.value.0@, args) {
        Some(from)
    } else {
        first_matching_branch(branches, args, from + 1)
    }
}

/// The blocks after the first `upto` definitions were bound in `block`, one
/// after the other.
pub open spec fn bind_all(
    blocks: Seq<BlockInfoView>,
    block: BlockID,
    defines: Seq<DefineResolved>,
    upto: int,
) -> Seq<BlockInfoView>
    decreases upto,
{
    if upto <= 0 {
        blocks
    } else {
        with_define(bind_all(blocks, block, defines, upto - 1), block, defines[upto - 1])
    }
}

/// A step that puts out nothing but a refusal.
pub open spec fn refused(
    blocks: Seq<BlockInfoView>,
    names: Seq<Seq<u8>>,
    diagnostic: Diagnostic,
    changed: Option<Span>,
) -> Step {
    Step { blocks, names, code: Seq::empty(), errors: seq![diagnostic], changed }
}

/// The call of a user-defined macro: the arguments are resolved, the first
/// branch that takes them is chosen, a new block inside the block of the call
/// binds each argument to its slot, and the code of the branch goes into that
/// block.
pub open spec fn user_macro_step(
    blocks: Seq<BlockInfoView>,
    names: Seq<Seq<u8>>,
    branches: Seq<WithSpan<MacroBranch>>,
    call: MacroCall,
    block: BlockID,
    changed: Option<Span>,
) -> Step {
    match resolve_arguments(blocks, block, call.arguments.value@, call.arguments.value@.len() as int) {
        Err(diagnostic) => refused(blocks, names, diagnostic, changed),
        Ok(args) => match first_matching_branch(branches, args, 0) {
            None => refused(
                blocks,
                names,
                Diagnostic { span: call.name.span, kind: DiagnosticKind::NoMatchingBranch },
                changed,
            ),
            Some(index) => {
                let branch = branches[index].value;
                let new_id = BlockID(blocks.len() as usize);
                let defines = pattern_defines(branch.pattern.value.0@, args, args.len() as int);
                Step {
                    blocks: bind_all(
                        with_new_block(blocks, block),
                        new_id,
                        defines,
                        defines.len() as int,
                    ),
                    names,
                    code: retag_all(branch.code@, new_id),
                    errors: Seq::empty(),
                    changed,
                }
            },
        },
    }
}

/// What a pass makes of code in the block `block`: a primitive stays, and the
/// call of a macro becomes what the macro that the file of the call can see
/// under that name stands for.
pub open spec fn code_step(
    env: Env,
    blocks: Seq<BlockInfoView>,
    names: Seq<Seq<u8>>,
    code: Code,
    block: BlockID,
    span: Span,
    tag_change: Option<Span>,
) -> Step {
    match code {
        Code::Primitive(primitive) => Step {
            blocks,
            names,
            code: seq![
                WithSpan {
                    value: TaggedInstruction {
                        instruction: Instruction::Code(Code::Primitive(primitive)),
                        block_id: Some(block),
                    },
                    span,
                },
            ],
            errors: Seq::empty(),
            changed: tag_change,
        },
        Code::Macro(call) => {
            let changed = first_of(tag_change, Some(call.name.span));
            let missing = refused(
                blocks,
                names,
                Diagnostic { span: call.name.span, kind: DiagnosticKind::UnresolvedMacro },
                changed,
            );
            match find_access(env.available, call.name.span.file, call.name.value) {
                None => missing,
                Some(access) => match find_macro(env.macros, access.defined_in, call.name.value, 0) {
                    None => missing,
                    Some(index) => match env.macros[index].definition.value {
                        Macro::Builtin(kind) => {
                            let outcome = builtin_outcome(
                                kind,
                                blocks,
                                env.puzzles,
                                names,
                                block,
                                call.arguments.value@,
                                call.arguments.span,
                            );
                            match outcome.result {
                                Ok(primitive) => Step {
                                    blocks,
                                    names: outcome.names,
                                    code: seq![
                                        WithSpan {
                                            value: TaggedInstruction {
                                                instruction: Instruction::Code(
                                                    Code::Primitive(primitive),
                                                ),
                                                block_id: Some(block),
                                            },
                                            span,
                                        },
                                    ],
                                    errors: Seq::empty(),
                                    changed,
                                },
                                Err(diagnostic) => refused(blocks, outcome.names, diagnostic, changed),
                            }
                        },
                        Macro::UserDefined { branches } => user_macro_step(
                            blocks,
                            names,
                            branches@,
                            call,
                            block,
                            changed,
                        ),
                    },
                },
            }
        },
    }
}

/// What a pass makes of one instruction. An instruction without a block
/// belongs to `enclosing`.
pub open spec fn instruction_step(
    env: Env,
    blocks: Seq<BlockInfoView>,
    names: Seq<Seq<u8>>,
    item: WithSpan<TaggedInstruction>,
    enclosing: BlockID,
) -> Step {
    let block = match item.value.block_id {
        Some(block) => block,
        None => enclosing,
    };
    let span = item.span;
    let tag_change = if item.value.block_id is None {
        Some(span)
    } else {
        None
    };
    match item.value.instruction {
        Instruction::Label(label) => {
            if label.maybe_block_id is None {
                let stamped = Label { maybe_block_id: Some(block), ..label };
                Step {
                    blocks: with_label(blocks, block, stamped),
                    names,
                    code: seq![
                        WithSpan {
                            value: TaggedInstruction {
                                instruction: Instruction::Label(stamped),
                                block_id: Some(block),
                            },
                            span,
                        },
                    ],
                    errors: Seq::empty(),
                    changed: Some(span),
                }
            } else {
                Step {
                    blocks,
                    names,
                    code: seq![
                        WithSpan {
                            value: TaggedInstruction {
                                instruction: Instruction::Label(label),
                                block_id: Some(block),
                            },
                            span,
                        },
                    ],
                    errors: Seq::empty(),
                    changed: tag_change,
                }
            }
        },
        Instruction::Define(define) => {
            if find_in_defines(blocks[block.0 as int].defines, define.name.value) is Some {
                refused(
                    blocks,
                    names,
                    Diagnostic { span: define.name.span, kind: DiagnosticKind::DefineShadow },
                    tag_change,
                )
            } else {
                match resolve_value(blocks, block, define.value.value) {
                    None => refused(
                        blocks,
                        names,
                        Diagnostic {
                            span: define.value.span,
                            kind: DiagnosticKind::UnresolvedConstant,
                        },
                        tag_change,
                    ),
                    Some(resolved) => Step {
                        blocks: with_define(
                            blocks,
                            block,
                            DefineResolved {
                                name: define.name,
                                value: WithSpan { value: resolved, span: define.value.span },
                            },
                        ),
                        names,
                        code: Seq::empty(),
                        errors: Seq::empty(),
                        changed: Some(span),
                    },
                }
            }
        },
        Instruction::Code(code) => code_step(env, blocks, names, code, block, span, tag_change),
        Instruction::Constant(name) => match find_define(blocks, block, name) {
            None => refused(
                blocks,
                names,
                Diagnostic { span, kind: DiagnosticKind::UnresolvedConstant },
                tag_change,
            ),
            Some(define) => match define.value.value {
                ResolvedValue::Block(body) => Step {
                    blocks: with_new_block(blocks, block),
                    names,
                    code: retag_all(body.code@, BlockID(blocks.len() as usize)),
                    errors: Seq::empty(),
                    changed: Some(span),
                },
                other => refused(
                    blocks,
                    names,
                    Diagnostic {
                        span,
                        kind: DiagnosticKind::TypeMismatch {
                            expected: Expected::CodeBlock,
                            found: kind_of(other),
                        },
                    },
                    tag_change,
                ),
            },
        },
    }
}

/// What a pass has done once it has walked the first `upto` instructions.
#[verifier::opaque]
pub open spec fn pass_upto(
    env: Env,
    blocks: Seq<BlockInfoView>,
    names: Seq<Seq<u8>>,
    code: Seq<WithSpan<TaggedInstruction>>,
    enclosing: BlockID,
    upto: int,
) -> Step
    decreases upto,
{
    if upto <= 0 {
        Step { blocks, names, code: Seq::empty(), errors: Seq::empty(), changed: None }
    } else {
        let before = pass_upto(env, blocks, names, code, enclosing, upto - 1);
        let step = instruction_step(env, before.blocks, before.names, code[upto - 1], enclosing);
        Step {
            blocks: step.blocks,
            names: step.names,
            code: before.code + step.code,
            errors: before.errors + step.errors,
            changed: first_of(before.changed, step.changed),
        }
    }
}

/// What one pass over `code` does.
pub open spec fn pass(
    env: Env,
    blocks: Seq<BlockInfoView>,
    names: Seq<Seq<u8>>,
    code: Seq<WithSpan<TaggedInstruction>>,
    enclosing: BlockID,
) -> Step {
    pass_upto(env, blocks, names, code, enclosing, code.len() as int)
}

impl ExpansionInfo {
    /// What the expansion reads of this value and does not change.
    pub open spec fn env(&self) -> Env {
        Env { puzzles: self.puzzles(), macros: self.macros@, available: self.available_macros@ }
    }
}

fn note_change(changed: &mut Option<Span>, span: Span)
    ensures
        *final(changed) == first_of(*old(changed), Some(span)),
{
    if changed.is_none() {
        *changed = Some(span);
    }
}

fn find_macro_index(macros: &Vec<MacroEntry>, file: usize, name: Symbol) -> (found: Option<usize>)
    ensures
        match found {
            Some(index) => find_macro(macros@, file, name, 0) == Some(index as int) && index
                < macros@.len(),
            None => find_macro(macros@, file, name, 0) is None,
        },
{
    let mut i: usize = 0;
    while i < macros.len()
        invariant
            i <= macros@.len(),
            find_macro(macros@, file, name, 0) == find_macro(macros@, file, name, i as int),
        decreases macros@.len() - i,
    {
        if macros[i].file == file && macros[i].name.0 == name.0 {
            return Some(i);
        }
        i += 1;
    }
    None
}

fn find_access_exec(available: &Vec<MacroAccess>, file: usize, name: Symbol) -> (access: Option<
    MacroAccess,
>)
    ensures
        access == find_access(available@, file, name),
{
    let ghost all = available@;
    assert(all.skip(0) =~= all);
    let mut i: usize = 0;
    while i < available.len()
        invariant
            i <= all.len(),
            all == available@,
            find_access(all, file, name) == find_access(all.skip(i as int), file, name),
        decreases all.len() - i,
    {
        let entry = available[i];
        if entry.file == file && entry.name.0 == name.0 {
            assert(all.skip(i as int)[0] == entry);
            return Some(entry);
        }
        assert(all.skip(i as int).drop_first() =~= all.skip(i + 1));
        i += 1;
    }
    assert(all.skip(i as int).len() == 0);
    None
}

/// Appends `code`, as part of the block `block`, to `out`.
fn splice(out: &mut Vec<WithSpan<TaggedInstruction>>, code: &Vec<WithSpan<TaggedInstruction>>, block: BlockID)
    ensures
        final(out)@ == old(out)@ + retag_all(code@, block),
{
    let mut i: usize = 0;
    assert(old(out)@ + retag_all(code@, block).take(0) =~= old(out)@);
    while i < code.len()
        invariant
            i <= code@.len(),
            out@ == old(out)@ + retag_all(code@, block).take(i as int),
        decreases code@.len() - i,
    {
        let item = &code[i];
        out.push(
            WithSpan {
                value: TaggedInstruction {
                    instruction: item.value.instruction.clone(),
                    block_id: Some(block),
                },
                span: item.span,
            },
        );
        assert(retag_all(code@, block).take(i + 1) =~= retag_all(code@, block).take(i as int).push(
            retag(code@[i as int], block),
        ));
        assert(out@ =~= old(out)@ + retag_all(code@, block).take(i + 1));
        i += 1;
    }
    assert(retag_all(code@, block).take(code@.len() as int) =~= retag_all(code@, block));
}

fn resolve_all(tracker: &BlockInfoTracker, block: BlockID, args: &Vec<WithSpan<Value>>) -> (resolved:
    Result<Vec<WithSpan<ResolvedValue>>, Diagnostic>)
    requires
        blocks_wf(tracker@),
    ensures
        match resolved {
            Ok(values) => resolve_arguments(tracker@, block, args@, args@.len() as int) == Ok::<
                _,
                Diagnostic,
            >(values@),
            Err(diagnostic) => resolve_arguments(tracker@, block, args@, args@.len() as int) == Err::<
                Seq<WithSpan<ResolvedValue>>,
                _,
            >(diagnostic),
        },
{
    let mut values: Vec<WithSpan<ResolvedValue>> = Vec::new();
    let mut i: usize = 0;
    while i < args.len()
        invariant
            blocks_wf(tracker@),
            i <= args@.len(),
            resolve_arguments(tracker@, block, args@, i as int) == Ok::<_, Diagnostic>(values@),
        decreases args@.len() - i,
    {
        match tracker.resolve_ref(block, &args[i].value) {
            Some(resolved) => {
                values.push(WithSpan { value: resolved.clone(), span: args[i].span });
            },
            None => {
                proof {
                    lemma_resolve_arguments_fails(tracker@, block, args@, i as int + 1, args@.len() as int);
                }
                return Err(
                    Diagnostic { span: args[i].span, kind: DiagnosticKind::UnresolvedConstant },
                );
            },
        }
        i += 1;
    }
    Ok(values)
}

proof fn lemma_resolve_arguments_fails(
    blocks: Seq<BlockInfoView>,
    block: BlockID,
    args: Seq<WithSpan<Value>>,
    at: int,
    upto: int,
)
    requires
        0 <= at <= upto,
        resolve_arguments(blocks, block, args, at) is Err,
    ensures
        resolve_arguments(blocks, block, args, upto) == resolve_arguments(blocks, block, args, at),
    decreases upto - at,
{
    if at < upto {
        lemma_resolve_arguments_fails(blocks, block, args, at, upto - 1);
    }
}


fn push_refusal(errs: &mut Vec<Diagnostic>, diagnostic: Diagnostic)
    ensures
        final(errs)@ == old(errs)@ + seq![diagnostic],
{
    errs.push(diagnostic);
    assert(errs@ =~= old(errs)@ + seq![diagnostic]);
}

fn push_instruction(
    out: &mut Vec<WithSpan<TaggedInstruction>>,
    instruction: Instruction,
    block: BlockID,
    span: Span,
)
    ensures
        final(out)@ == old(out)@ + seq![
            WithSpan { value: TaggedInstruction { instruction, block_id: Some(block) }, span },
        ],
{
    out.push(WithSpan { value: TaggedInstruction { instruction, block_id: Some(block) }, span });
    assert(out@ =~= old(out)@ + seq![
        WithSpan { value: TaggedInstruction { instruction, block_id: Some(block) }, span },
    ]);
}

/// Binds the definitions in `block`, one after the other.
fn bind_defines(tracker: &mut BlockInfoTracker, block: BlockID, defines: Vec<(Symbol, DefineResolved)>, Ghost(
    expected,
): Ghost<Seq<DefineResolved>>)
    requires
        blocks_wf(old(tracker)@),
        block.0 < old(tracker)@.len(),
        defines@.len() == expected.len(),
        forall|i: int| 0 <= i < defines@.len() ==> (#[trigger] defines@[i]).1 == expected[i],
    ensures
        blocks_wf(final(tracker)@),
        final(tracker)@ == bind_all(old(tracker)@, block, expected, expected.len() as int),
        final(tracker)@.len() == old(tracker)@.len(),
{
    let mut i: usize = 0;
    while i < defines.len()
        invariant
            i <= defines@.len(),
            defines@.len() == expected.len(),
            forall|j: int| 0 <= j < defines@.len() ==> (#[trigger] defines@[j]).1 == expected[j],
            blocks_wf(tracker@),
            tracker@.len() == old(tracker)@.len(),
            block.0 < tracker@.len(),
            tracker@ == bind_all(old(tracker)@, block, expected, i as int),
        decreases defines@.len() - i,
    {
        let define = defines[i].1.clone();
        tracker.bind_define(block, define);
        i += 1;
    }
}

/// Expands the call of a user-defined macro.
fn expand_user_macro(
    block_id: BlockID,
    tracker: &mut BlockInfoTracker,
    branches: &Vec<WithSpan<MacroBranch>>,
    call: &MacroCall,
    out: &mut Vec<WithSpan<TaggedInstruction>>,
    errs: &mut Vec<Diagnostic>,
    Ghost(names): Ghost<Seq<Seq<u8>>>,
    Ghost(changed): Ghost<Option<Span>>,
)
    requires
        blocks_wf(old(tracker)@),
        block_id.0 < old(tracker)@.len(),
    ensures
        ({
            let step = user_macro_step(old(tracker)@, names, branches@, *call, block_id, changed);
            &&& final(tracker)@ == step.blocks
            &&& final(out)@ == old(out)@ + step.code
            &&& final(errs)@ == old(errs)@ + step.errors
        }),
        blocks_wf(final(tracker)@),
        old(tracker)@.len() <= final(tracker)@.len() <= old(tracker)@.len() + 1,
{
    let list: &Vec<WithSpan<Value>> = &call.arguments.value;
    let mut components = match resolve_all(tracker, block_id, list) {
        Ok(values) => values,
        Err(diagnostic) => {
            push_refusal(errs, diagnostic);
            assert(out@ =~= old(out)@ + Seq::<WithSpan<TaggedInstruction>>::empty());
            return ;
        },
    };
    let ghost args = components@;
    let mut i: usize = 0;
    while i < branches.len()
        invariant
            i <= branches@.len(),
            components@ == args,
            first_matching_branch(branches@, args, 0) == first_matching_branch(branches@, args, i as int),
            blocks_wf(tracker@),
            tracker@ == old(tracker)@,
            block_id.0 < tracker@.len(),
            out@ == old(out)@,
            errs@ == old(errs)@,
            resolve_arguments(
                old(tracker)@,
                block_id,
                call.arguments.value@,
                call.arguments.value@.len() as int,
            ) == Ok::<_, Diagnostic>(args),
        decreases branches@.len() - i,
    {
        let branch = &branches[i].value;
        match branch.pattern.value.matches(components) {
            Ok(defines) => {
                let ghost expected = pattern_defines(
                    branch.pattern.value.0@,
                    args,
                    branch.pattern.value.0@.len() as int,
                );
                let ghost before = tracker@;
                let new_id = tracker.new_block(block_id);
                bind_defines(tracker, new_id, defines, Ghost(expected));
                let code: &Vec<WithSpan<TaggedInstruction>> = &branch.code;
                splice(out, code, new_id);
                assert(errs@ =~= old(errs)@ + Seq::<Diagnostic>::empty());
                return ;
            },
            Err(unchanged) => {
                components = unchanged;
            },
        }
        i += 1;
    }
    push_refusal(errs, Diagnostic { span: call.name.span, kind: DiagnosticKind::NoMatchingBranch });
    assert(out@ =~= old(out)@ + Seq::<WithSpan<TaggedInstruction>>::empty());
}


/// Expands code of the block `block_id`: a primitive stays as it is, the call
/// of a macro becomes what the macro stands for.
fn expand_code(
    block_id: BlockID,
    expansion_info: &mut ExpansionInfo,
    code: Code,
    span: Span,
    out: &mut Vec<WithSpan<TaggedInstruction>>,
    errs: &mut Vec<Diagnostic>,
    changed: &mut Option<Span>,
    names: &mut Interner,
    Ghost(prior): Ghost<Option<Span>>,
    Ghost(tag_change): Ghost<Option<Span>>,
)
    requires
        blocks_wf(old(expansion_info).block_info@),
        block_id.0 < old(expansion_info).block_info@.len(),
        old(names).wf(),
        *old(changed) == first_of(prior, tag_change),
    ensures
        ({
            let step = code_step(
                old(expansion_info).env(),
                old(expansion_info).block_info@,
                old(names)@,
                code,
                block_id,
                span,
                tag_change,
            );
            &&& final(expansion_info).block_info@ == step.blocks
            &&& final(names)@ == step.names
            &&& final(out)@ == old(out)@ + step.code
            &&& final(errs)@ == old(errs)@ + step.errors
            &&& *final(changed) == first_of(prior, step.changed)
        }),
        final(expansion_info).registers == old(expansion_info).registers,
        final(expansion_info).macros == old(expansion_info).macros,
        final(expansion_info).available_macros == old(expansion_info).available_macros,
        blocks_wf(final(expansion_info).block_info@),
        old(expansion_info).block_info@.len() <= final(expansion_info).block_info@.len() <= old(
            expansion_info,
        ).block_info@.len() + 1,
        final(names).wf(),
        names_kept(old(names), final(names)),
{
    let call = match code {
        Code::Primitive(primitive) => {
            push_instruction(out, Instruction::Code(Code::Primitive(primitive)), block_id, span);
            assert(errs@ =~= old(errs)@ + Seq::<Diagnostic>::empty());
            return ;
        },
        Code::Macro(call) => call,
    };
    note_change(changed, call.name.span);
    let access = match find_access_exec(
        &expansion_info.available_macros,
        call.name.span.file,
        call.name.value,
    ) {
        Some(access) => access,
        None => {
            push_refusal(
                errs,
                Diagnostic { span: call.name.span, kind: DiagnosticKind::UnresolvedMacro },
            );
            assert(out@ =~= old(out)@ + Seq::<WithSpan<TaggedInstruction>>::empty());
            return ;
        },
    };
    let index = match find_macro_index(&expansion_info.macros, access.defined_in, call.name.value) {
        Some(index) => index,
        None => {
            push_refusal(
                errs,
                Diagnostic { span: call.name.span, kind: DiagnosticKind::UnresolvedMacro },
            );
            assert(out@ =~= old(out)@ + Seq::<WithSpan<TaggedInstruction>>::empty());
            return ;
        },
    };
    match &expansion_info.macros[index].definition.value {
        Macro::Builtin(kind) => {
            let kind = *kind;
            match expand_builtin(kind, expansion_info, &call.arguments, block_id, names) {
                Ok(instructions) => {
                    let ghost primitive = builtin_outcome(
                        kind,
                        expansion_info.block_info@,
                        expansion_info.puzzles(),
                        old(names)@,
                        block_id,
                        call.arguments.value@,
                        call.arguments.span,
                    ).result->Ok_0;
                    assert(instructions@[0] == Instruction::Code(Code::Primitive(primitive)));
                    let instruction = instructions[0].clone();
                    push_instruction(out, instruction, block_id, span);
                    assert(errs@ =~= old(errs)@ + Seq::<Diagnostic>::empty());
                },
                Err(diagnostic) => {
                    push_refusal(errs, diagnostic);
                    assert(out@ =~= old(out)@ + Seq::<WithSpan<TaggedInstruction>>::empty());
                },
            }
        },
        Macro::UserDefined { branches } => {
            expand_user_macro(
                block_id,
                &mut expansion_info.block_info,
                branches,
                &call,
                out,
                errs,
                Ghost(names@),
                Ghost(first_of(tag_change, Some(call.name.span))),
            );
        },
    }
}

/// Expands one instruction in one pass.
fn expand_instruction(
    block_id: BlockID,
    expansion_info: &mut ExpansionInfo,
    item: WithSpan<TaggedInstruction>,
    out: &mut Vec<WithSpan<TaggedInstruction>>,
    errs: &mut Vec<Diagnostic>,
    changed: &mut Option<Span>,
    names: &mut Interner,
)
    requires
        blocks_wf(old(expansion_info).block_info@),
        block_id.0 < old(expansion_info).block_info@.len(),
        item.value.block_id matches Some(block) ==> block.0 < old(expansion_info).block_info@.len(),
        old(names).wf(),
    ensures
        ({
            let step = instruction_step(
                old(expansion_info).env(),
                old(expansion_info).block_info@,
                old(names)@,
                item,
                block_id,
            );
            &&& final(expansion_info).block_info@ == step.blocks
            &&& final(names)@ == step.names
            &&& final(out)@ == old(out)@ + step.code
            &&& final(errs)@ == old(errs)@ + step.errors
            &&& *final(changed) == first_of(*old(changed), step.changed)
        }),
        final(expansion_info).registers == old(expansion_info).registers,
        final(expansion_info).macros == old(expansion_info).macros,
        final(expansion_info).available_macros == old(expansion_info).available_macros,
        blocks_wf(final(expansion_info).block_info@),
        old(expansion_info).block_info@.len() <= final(expansion_info).block_info@.len() <= old(
            expansion_info,
        ).block_info@.len() + 1,
        final(names).wf(),
        names_kept(old(names), final(names)),
{
    let span = item.span;
    let ghost tag_change = if item.value.block_id is None {
        Some(span)
    } else {
        None
    };
    let block = match item.value.block_id {
        Some(block) => block,
        None => {
            note_change(changed, span);
            block_id
        },
    };
    match item.value.instruction {
        Instruction::Label(label) => {
            if label.maybe_block_id.is_none() {
                let stamped = Label {
                    name: label.name,
                    public: label.public,
                    maybe_block_id: Some(block),
                    available_in_blocks: label.available_in_blocks,
                };
                note_change(changed, span);
                expansion_info.block_info.add_label(block, stamped.clone());
                push_instruction(out, Instruction::Label(stamped), block, span);
            } else {
                push_instruction(out, Instruction::Label(label), block, span);
            }
            assert(errs@ =~= old(errs)@ + Seq::<Diagnostic>::empty());
        },
        Instruction::Define(define) => {
            assert(out@ =~= old(out)@ + Seq::<WithSpan<TaggedInstruction>>::empty());
            if expansion_info.block_info.defines_here(block, define.name.value) {
                push_refusal(
                    errs,
                    Diagnostic { span: define.name.span, kind: DiagnosticKind::DefineShadow },
                );
                return ;
            }
            let value_span = define.value.span;
            match expansion_info.block_info.resolve(block, define.value.value) {
                None => {
                    push_refusal(
                        errs,
                        Diagnostic { span: value_span, kind: DiagnosticKind::UnresolvedConstant },
                    );
                },
                Some(resolved) => {
                    expansion_info.block_info.bind_define(
                        block,
                        DefineResolved {
                            name: define.name,
                            value: WithSpan { value: resolved, span: value_span },
                        },
                    );
                    note_change(changed, span);
                    assert(errs@ =~= old(errs)@ + Seq::<Diagnostic>::empty());
                },
            }
        },
        Instruction::Code(code) => {
            expand_code(
                block,
                expansion_info,
                code,
                span,
                out,
                errs,
                changed,
                names,
                Ghost(*old(changed)),
                Ghost(tag_change),
            );
        },
        Instruction::Constant(name) => {
            let body = match expansion_info.block_info.get_define(block, name) {
                None => {
                    push_refusal(errs, Diagnostic { span, kind: DiagnosticKind::UnresolvedConstant });
                    assert(out@ =~= old(out)@ + Seq::<WithSpan<TaggedInstruction>>::empty());
                    return ;
                },
                Some(define) => match &define.value.value {
                    ResolvedValue::Block(body) => body.clone(),
                    other => {
                        push_refusal(
                            errs,
                            Diagnostic {
                                span,
                                kind: DiagnosticKind::TypeMismatch {
                                    expected: Expected::CodeBlock,
                                    found: value_kind(other),
                                },
                            },
                        );
                        assert(out@ =~= old(out)@ + Seq::<WithSpan<TaggedInstruction>>::empty());
                        return ;
                    },
                },
            };
            note_change(changed, span);
            let new_id = expansion_info.block_info.new_block(block);
            let code: &Vec<WithSpan<TaggedInstruction>> = &body.code;
            splice(out, code, new_id);
            assert(errs@ =~= old(errs)@ + Seq::<Diagnostic>::empty());
        },
    }
}


/// Whether the instruction is a label that stands in a block, or a primitive
/// that belongs to one.
pub open spec fn is_expanded(item: WithSpan<TaggedInstruction>) -> bool {
    &&& item.value.block_id is Some
    &&& match item.value.instruction {
        Instruction::Label(label) => label.maybe_block_id is Some,
        Instruction::Code(Code::Primitive(_)) => true,
        _ => false,
    }
}

proof fn lemma_bind_all_len(blocks: Seq<BlockInfoView>, block: BlockID, defines: Seq<DefineResolved>, upto: int)
    requires
        block.0 < blocks.len(),
    ensures
        bind_all(blocks, block, defines, upto).len() == blocks.len(),
    decreases upto,
{
    if upto > 0 {
        lemma_bind_all_len(blocks, block, defines, upto - 1);
    }
}

/// What one instruction becomes belongs to blocks that exist, and where the
/// step changed nothing, it is a label or a primitive.
pub proof fn lemma_instruction_step(
    env: Env,
    blocks: Seq<BlockInfoView>,
    names: Seq<Seq<u8>>,
    item: WithSpan<TaggedInstruction>,
    enclosing: BlockID,
)
    requires
        enclosing.0 < blocks.len(),
        item.value.block_id matches Some(block) ==> block.0 < blocks.len(),
    ensures
        ({
            let step = instruction_step(env, blocks, names, item, enclosing);
            &&& blocks.len() <= step.blocks.len() <= blocks.len() + 1
            &&& tags_valid(step.code, step.blocks.len())
            &&& forall|i: int| 0 <= i < step.code.len() ==> (#[trigger] step.code[i]).value.block_id is Some
            &&& step.changed is None ==> step.blocks == blocks && forall|i: int|
                0 <= i < step.code.len() ==> is_expanded(#[trigger] step.code[i])
        }),
{
    let step = instruction_step(env, blocks, names, item, enclosing);
    let block = match item.value.block_id {
        Some(block) => block,
        None => enclosing,
    };
    match item.value.instruction {
        Instruction::Code(Code::Macro(call)) => {
            match find_access(env.available, call.name.span.file, call.name.value) {
                None => {},
                Some(access) => match find_macro(env.macros, access.defined_in, call.name.value, 0) {
                    None => {},
                    Some(index) => match env.macros[index].definition.value {
                        Macro::Builtin(kind) => {},
                        Macro::UserDefined { branches } => {
                            match resolve_arguments(
                                blocks,
                                block,
                                call.arguments.value@,
                                call.arguments.value@.len() as int,
                            ) {
                                Err(_) => {},
                                Ok(args) => match first_matching_branch(branches@, args, 0) {
                                    None => {},
                                    Some(found) => {
                                        let defines = pattern_defines(
                                            branches@[found].value.pattern.value.0@,
                                            args,
                                            args.len() as int,
                                        );
                                        lemma_bind_all_len(
                                            with_new_block(blocks, block),
                                            BlockID(blocks.len() as usize),
                                            defines,
                                            defines.len() as int,
                                        );
                                    },
                                },
                            }
                        },
                    },
                },
            }
        },
        _ => {},
    }
}

/// A pass puts out code that belongs to blocks that exist; if it changed
/// nothing, the code holds labels and primitives only.
pub proof fn lemma_pass(
    env: Env,
    blocks: Seq<BlockInfoView>,
    names: Seq<Seq<u8>>,
    code: Seq<WithSpan<TaggedInstruction>>,
    enclosing: BlockID,
    upto: int,
)
    requires
        0 <= upto <= code.len(),
        enclosing.0 < blocks.len(),
        tags_valid(code, blocks.len()),
    ensures
        ({
            let step = pass_upto(env, blocks, names, code, enclosing, upto);
            &&& blocks.len() <= step.blocks.len() <= blocks.len() + upto
            &&& tags_valid(step.code, step.blocks.len())
            &&& forall|i: int| 0 <= i < step.code.len() ==> (#[trigger] step.code[i]).value.block_id is Some
            &&& step.changed is None ==> step.blocks == blocks && forall|i: int|
                0 <= i < step.code.len() ==> is_expanded(#[trigger] step.code[i])
        }),
    decreases upto,
{
    reveal(pass_upto);
    if upto > 0 {
        lemma_pass(env, blocks, names, code, enclosing, upto - 1);
        let before = pass_upto(env, blocks, names, code, enclosing, upto - 1);
        lemma_instruction_step(env, before.blocks, before.names, code[upto - 1], enclosing);
        let step = instruction_step(env, before.blocks, before.names, code[upto - 1], enclosing);
        let all = pass_upto(env, blocks, names, code, enclosing, upto);
        assert forall|i: int| 0 <= i < all.code.len() implies match (#[trigger] all.code[i]).value.block_id {
            Some(block) => block.0 < all.blocks.len(),
            None => false,
        } by {
            if i < before.code.len() {
                assert(all.code[i] == before.code[i]);
            } else {
                assert(all.code[i] == step.code[i - before.code.len()]);
            }
        }
        if all.changed is None {
            assert forall|i: int| 0 <= i < all.code.len() implies is_expanded(#[trigger] all.code[i]) by {
                if i < before.code.len() {
                    assert(all.code[i] == before.code[i]);
                } else {
                    assert(all.code[i] == step.code[i - before.code.len()]);
                }
            }
        }
    }
}

/// Walks the code once. Returns the first place at which anything changed,
/// if anything did.
pub fn expand_block(
    block_id: BlockID,
    expansion_info: &mut ExpansionInfo,
    code: &mut Vec<WithSpan<TaggedInstruction>>,
    errs: &mut Vec<Diagnostic>,
    names: &mut Interner,
) -> (changed: Option<Span>)
    requires
        blocks_wf(old(expansion_info).block_info@),
        block_id.0 < old(expansion_info).block_info@.len(),
        tags_valid(old(code)@, old(expansion_info).block_info@.len()),
        old(names).wf(),
    ensures
        ({
            let step = pass(
                old(expansion_info).env(),
                old(expansion_info).block_info@,
                old(names)@,
                old(code)@,
                block_id,
            );
            &&& final(expansion_info).block_info@ == step.blocks
            &&& final(names)@ == step.names
            &&& final(code)@ == step.code
            &&& final(errs)@ == old(errs)@ + step.errors
            &&& changed == step.changed
        }),
        final(expansion_info).registers == old(expansion_info).registers,
        final(expansion_info).macros == old(expansion_info).macros,
        final(expansion_info).available_macros == old(expansion_info).available_macros,
        blocks_wf(final(expansion_info).block_info@),
        old(expansion_info).block_info@.len() <= final(expansion_info).block_info@.len(),
        tags_valid(final(code)@, final(expansion_info).block_info@.len()),
        final(names).wf(),
        names_kept(old(names), final(names)),
{
    let mut input: Vec<WithSpan<TaggedInstruction>> = Vec::new();
    std::mem::swap(code, &mut input);
    let ghost env = expansion_info.env();
    let ghost blocks = expansion_info.block_info@;
    let ghost start_names = names@;
    let mut changed: Option<Span> = None;
    let mut i: usize = 0;
    assert(errs@ =~= old(errs)@ + Seq::<Diagnostic>::empty());
    proof {
        reveal(pass_upto);
    }
    while i < input.len()
        invariant
            i <= input@.len(),
            input@ == old(code)@,
            env == old(expansion_info).env(),
            expansion_info.env() == env,
            blocks == old(expansion_info).block_info@,
            start_names == old(names)@,
            expansion_info.registers == old(expansion_info).registers,
            expansion_info.macros == old(expansion_info).macros,
            expansion_info.available_macros == old(expansion_info).available_macros,
            blocks_wf(expansion_info.block_info@),
            block_id.0 < blocks.len(),
            tags_valid(input@, blocks.len()),
            names.wf(),
            names_kept(old(names), names),
            ({
                let step = pass_upto(env, blocks, start_names, input@, block_id, i as int);
                &&& expansion_info.block_info@ == step.blocks
                &&& names@ == step.names
                &&& code@ == step.code
                &&& errs@ == old(errs)@ + step.errors
                &&& changed == step.changed
            }),
        decreases input@.len() - i,
    {
        proof {
            reveal(pass_upto);
            lemma_pass(env, blocks, start_names, input@, block_id, i as int);
        }
        let ghost before = pass_upto(env, blocks, start_names, input@, block_id, i as int);
        let ghost errs_before = errs@;
        let item = WithSpan { value: input[i].value.clone(), span: input[i].span };
        assert(item == input@[i as int]);
        expand_instruction(block_id, expansion_info, item, code, errs, &mut changed, names);
        proof {
            let step = instruction_step(env, before.blocks, before.names, input@[i as int], block_id);
            assert(errs@ =~= old(errs)@ + (before.errors + step.errors));
        }
        i += 1;
    }
    proof {
        lemma_pass(env, blocks, start_names, input@, block_id, input@.len() as int);
    }
    changed
}


/// A program as the parser hands it over.
#[derive(Debug)]
pub struct ParsedSyntax {
    pub expansion_info: ExpansionInfo,
    pub code: Vec<WithSpan<TaggedInstruction>>,
}

/// A part of an expanded program.
#[derive(Debug)]
pub enum ExpandedCodeComponent {
    Instruction(Primitive, BlockID),
    Label(Label),
}

/// A program without macros and constants.
#[derive(Debug)]
pub struct ExpandedCode {
    pub registers: RegistersDecl,
    pub block_info: BlockInfoTracker,
    pub expanded_code_components: Vec<WithSpan<ExpandedCodeComponent>>,
}

/// The number of passes that may change something before the expansion gives
/// up.
pub const RECURSION_LIMIT: usize = 100;

/// What the passes have done together, and the place of the last change if
/// they were stopped at the limit.
pub ghost struct Rounds {
    pub blocks: Seq<BlockInfoView>,
    pub names: Seq<Seq<u8>>,
    pub code: Seq<WithSpan<TaggedInstruction>>,
    pub errors: Seq<Diagnostic>,
    pub limit_hit: Option<Span>,
}

/// Passes over the whole program, one after the other, until one changes
/// nothing or `rounds` of them have changed something.
pub open spec fn run_passes(
    env: Env,
    blocks: Seq<BlockInfoView>,
    names: Seq<Seq<u8>>,
    code: Seq<WithSpan<TaggedInstruction>>,
    errors: Seq<Diagnostic>,
    rounds: nat,
) -> Rounds
    decreases rounds,
{
    let step = pass(env, blocks, names, code, BlockID(0));
    let all_errors = errors + step.errors;
    match step.changed {
        None => Rounds {
            blocks: step.blocks,
            names: step.names,
            code: step.code,
            errors: all_errors,
            limit_hit: None,
        },
        Some(span) => if rounds <= 1 {
            Rounds {
                blocks: step.blocks,
                names: step.names,
                code: step.code,
                errors: all_errors,
                limit_hit: Some(span),
            }
        } else {
            run_passes(env, step.blocks, step.names, step.code, all_errors, (rounds - 1) as nat)
        },
    }
}

/// A label or a primitive as a part of the expanded program.
pub open spec fn as_component(item: WithSpan<TaggedInstruction>) -> WithSpan<ExpandedCodeComponent> {
    WithSpan {
        value: match item.value.instruction {
            Instruction::Code(Code::Primitive(primitive)) => ExpandedCodeComponent::Instruction(
                primitive,
                item.value.block_id.unwrap(),
            ),
            Instruction::Label(label) => ExpandedCodeComponent::Label(label),
            _ => arbitrary(),
        },
        span: item.span,
    }
}

/// What the expansion refuses, if it refuses the program: everything that the
/// passes refused, and the place of the last change if they did not come to
/// rest.
pub open spec fn expansion_errors(rounds: Rounds) -> Seq<Diagnostic> {
    match rounds.limit_hit {
        Some(span) => rounds.errors + seq![
            Diagnostic { span, kind: DiagnosticKind::RecursionLimit },
        ],
        None => rounds.errors,
    }
}

/// Expands a program down to labels and primitive instructions.
///
/// The program is refused with everything that the passes found wrong. It is
/// also refused if the passes do not come to rest within the limit, at the
/// place where the last pass first changed something.
pub fn expand(parsed: ParsedSyntax, names: &mut Interner) -> (expanded: Result<
    ExpandedCode,
    Vec<Diagnostic>,
>)
    requires
        blocks_wf(parsed.expansion_info.block_info@),
        parsed.expansion_info.block_info@.len() > 0,
        tags_valid(parsed.code@, parsed.expansion_info.block_info@.len()),
        old(names).wf(),
    ensures
        final(names).wf(),
        names_kept(old(names), final(names)),
        ({
            let rounds = run_passes(
                parsed.expansion_info.env(),
                parsed.expansion_info.block_info@,
                old(names)@,
                parsed.code@,
                Seq::empty(),
                RECURSION_LIMIT as nat,
            );
            &&& final(names)@ == rounds.names
            &&& match expanded {
                Ok(program) => {
                    &&& expansion_errors(rounds).len() == 0
                    &&& program.block_info@ == rounds.blocks
                    &&& program.registers.puzzles@ == parsed.expansion_info.puzzles()
                    &&& program.expanded_code_components@.len() == rounds.code.len()
                    &&& forall|i: int|
                        0 <= i < rounds.code.len() ==> is_expanded(#[trigger] rounds.code[i])
                            && program.expanded_code_components@[i] == as_component(rounds.code[i])
                },
                Err(errors) => errors@.len() > 0 && errors@ == expansion_errors(rounds),
            }
        }),
{
    let mut info = parsed.expansion_info;
    let mut code = parsed.code;
    let mut errs: Vec<Diagnostic> = Vec::new();
    let mut limit: usize = RECURSION_LIMIT;
    let ghost env = info.env();
    let ghost goal = run_passes(
        env,
        info.block_info@,
        names@,
        code@,
        Seq::empty(),
        RECURSION_LIMIT as nat,
    );
    loop
        invariant_except_break
            goal == run_passes(env, info.block_info@, names@, code@, errs@, limit as nat),
        invariant
            1 <= limit <= RECURSION_LIMIT,
            info.env() == env,
            goal == run_passes(
                parsed.expansion_info.env(),
                parsed.expansion_info.block_info@,
                old(names)@,
                parsed.code@,
                Seq::empty(),
                RECURSION_LIMIT as nat,
            ),
            info.registers == parsed.expansion_info.registers,
            blocks_wf(info.block_info@),
            info.block_info@.len() > 0,
            tags_valid(code@, info.block_info@.len()),
            names.wf(),
            names_kept(old(names), names),
        ensures
            goal.limit_hit is None,
            info.block_info@ == goal.blocks,
            names@ == goal.names,
            code@ == goal.code,
            errs@ == goal.errors,
            forall|j: int| 0 <= j < code@.len() ==> is_expanded(#[trigger] code@[j]),
        decreases limit,
    {
        let ghost blocks_before = info.block_info@;
        let ghost names_before = names@;
        let ghost code_before = code@;
        let ghost errs_before = errs@;
        let ghost step = pass(env, blocks_before, names_before, code_before, BlockID(0));
        proof {
            lemma_pass(env, blocks_before, names_before, code_before, BlockID(0), code_before.len() as int);
        }
        match expand_block(BlockID(0), &mut info, &mut code, &mut errs, names) {
            None => {
                break ;
            },
            Some(span) => {
                limit -= 1;
                if limit == 0 {
                    errs.push(Diagnostic { span, kind: DiagnosticKind::RecursionLimit });
                    proof {
                        assert(goal == run_passes(
                            env,
                            blocks_before,
                            names_before,
                            code_before,
                            errs_before,
                            1,
                        ));
                        assert(goal.limit_hit == Some(span));
                        assert(goal.names == step.names);
                        assert(goal.errors == errs_before + step.errors);
                        assert(errs@ =~= expansion_errors(goal));
                    }
                    return Err(errs);
                }
            },
        }
    }
    if errs.len() > 0 {
        return Err(errs);
    }
    let mut components: Vec<WithSpan<ExpandedCodeComponent>> = Vec::new();
    let mut i: usize = 0;
    assert(info.env().puzzles == parsed.expansion_info.puzzles());
    while i < code.len()
        invariant
            i <= code@.len(),
            components@.len() == i,
            forall|j: int| 0 <= j < code@.len() ==> is_expanded(#[trigger] code@[j]),
            forall|j: int| 0 <= j < i ==> (#[trigger] components@[j]) == as_component(code@[j]),
        decreases code@.len() - i,
    {
        let item = &code[i];
        assert(is_expanded(code@[i as int]));
        let component = match &item.value.instruction {
            Instruction::Label(label) => ExpandedCodeComponent::Label(label.clone()),
            Instruction::Code(Code::Primitive(primitive)) => match item.value.block_id {
                Some(block) => ExpandedCodeComponent::Instruction(*primitive, block),
                None => {
                    assert(false);
                    ExpandedCodeComponent::Instruction(*primitive, BlockID(0))
                },
            },
            _ => {
                assert(false);
                ExpandedCodeComponent::Instruction(
                    Primitive::Goto {
                        label: WithSpan {
                            value: crate::compiler::syntax::LabelReference {
                                name: Symbol(0),
                                block_id: BlockID(0),
                            },
                            span: item.span,
                        },
                    },
                    BlockID(0),
                )
            },
        };
        components.push(WithSpan { value: component, span: item.span });
        i += 1;
    }
    let registers = match info.registers {
        Some(declaration) => declaration.value,
        None => RegistersDecl { puzzles: Vec::new() },
    };
    Ok(ExpandedCode { registers, block_info: info.block_info, expanded_code_components: components })
}

} // verus!
