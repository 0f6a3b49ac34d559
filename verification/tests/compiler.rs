use qter::compiler::blocks::{BlockInfoTracker};
use qter::compiler::builtin_macros::{builtin_macros, expand_builtin, trim_quotes_exec};
use qter::compiler::diagnostics::{Diagnostic, DiagnosticKind, Expected, ValueKind};
use qter::compiler::expansion_info::{
    BuiltinMacro, ExpansionInfo, Macro, MacroAccess, MacroBranch, MacroEntry,
};
use qter::compiler::macro_expansion::{
    expand, expand_block, ExpandedCodeComponent, ParsedSyntax,
};
use qter::compiler::patterns::{MacroArgTy, MacroPattern, MacroPatternComponent};
use qter::compiler::registers::{parse_u64, ParseIntError, Puzzle, RegistersDecl};
use qter::compiler::syntax::{
    Block, BlockID, Code, DefineUnresolved, Instruction, Label, LabelReference, MacroCall,
    Primitive, RegisterReference, ResolvedValue, TaggedInstruction, Value,
};
use qter::architectures::Architecture;
use qter::compiler::optimization::local::CoalesceAdds;
use qter::compiler::optimization::{
    FoundRegister, GlobalRegs, OptimizingCodeComponent, OptimizingPrimitive, PuzzleIdx, RegisterLocation,
};
use qter::compiler::q_emitter::{emit_q, QInstruction, QProgram};
use qter::compiler::registers::ArchitectureDecl;
use qter::decoding_table::new_from_effect;
use qter::names::{Interner, Symbol};
use qter::permutations::{Permutation, PermutationGroup};
use qter::span::{File, Span, WithSpan};
use std::sync::Arc;

const SOURCE: usize = 1;
const PRELUDE: usize = 0;

fn spot(start: usize, len: usize) -> Span {
    Span::new(SOURCE, start, len)
}

fn find(text: &str, needle: &str, nth: usize) -> Span {
    let start = text.match_indices(needle).nth(nth).unwrap().0;
    spot(start, needle.len())
}

fn untagged(instruction: Instruction, span: Span) -> WithSpan<TaggedInstruction> {
    span.with(TaggedInstruction { instruction, block_id: None })
}

fn call(names: &mut Interner, name: &str, args: Vec<WithSpan<Value>>, span: Span) -> Instruction {
    Instruction::Code(Code::Macro(MacroCall {
        name: span.with(names.intern(name.as_bytes())),
        arguments: span.with(Arc::new(args)),
    }))
}

fn ident(names: &mut Interner, text: &str, span: Span) -> WithSpan<Value> {
    span.with(Value::Resolved(ResolvedValue::Ident(names.intern(text.as_bytes()))))
}

fn number(value: u64, span: Span) -> WithSpan<Value> {
    span.with(Value::Resolved(ResolvedValue::Int(value)))
}

fn constant(names: &mut Interner, text: &str, span: Span) -> WithSpan<Value> {
    span.with(Value::Constant(names.intern(text.as_bytes())))
}

/// An expansion info with the built-in macros visible from the source file and
/// theoretical registers of the given names.
fn info_with(names: &mut Interner, registers: &[(&str, u64)]) -> ExpansionInfo {
    let macros = builtin_macros(PRELUDE, names);
    let available_macros = macros
        .iter()
        .map(|entry| MacroAccess { file: SOURCE, name: entry.name, defined_in: PRELUDE })
        .collect();
    let puzzles = registers
        .iter()
        .map(|(name, order)| Puzzle::Theoretical {
            name: spot(0, 0).with(names.intern(name.as_bytes())),
            order: spot(0, 0).with(*order),
        })
        .collect();
    ExpansionInfo {
        registers: Some(spot(0, 0).with(RegistersDecl { puzzles })),
        block_info: BlockInfoTracker::new(),
        macros,
        available_macros,
    }
}

#[test]
fn test_recursion_limit() {
    let code = "
            .registers {
                A <- 3x3 (U)
            }

            .define X {
                $X
            }

            $X
        ";
    let mut names = Interner::new();
    let x = names.intern(b"X");
    let inner = find(code, "$X", 0);
    let outer = find(code, "$X", 1);
    let define = find(code, ".define X {\n                $X\n            }", 0);
    let body = Block { code: Arc::new(vec![untagged(Instruction::Constant(x), inner)]) };
    let parsed = ParsedSyntax {
        expansion_info: info_with(&mut names, &[("A", 4)]),
        code: vec![
            untagged(
                Instruction::Define(DefineUnresolved {
                    name: find(code, "X", 1).with(x),
                    value: define.with(Value::Resolved(ResolvedValue::Block(body))),
                }),
                define,
            ),
            untagged(Instruction::Constant(x), outer),
        ],
    };

    match expand(parsed, &mut names) {
        Ok(v) => panic!("{v:?}"),
        Err(e) => {
            assert_eq!(e.len(), 1);
            assert_eq!(e[0].kind, DiagnosticKind::RecursionLimit);
            let file = File::new(code.as_bytes().to_vec());
            assert_eq!(file.line(e[0].span), 7);
            assert_eq!(file.slice(e[0].span), b"$X");
            assert_eq!(file.col(e[0].span), 17);
        }
    }
}

#[test]
fn nested_defines_expand_to_three_additions() {
    let mut names = Interner::new();
    let one = names.intern(b"one");
    let var = names.intern(b"var");
    let x = names.intern(b"X");
    let y = names.intern(b"Y");
    let z = names.intern(b"Z");
    let a = names.intern(b"A");
    let add_span = spot(100, 14);
    let add = call(
        &mut names,
        "add",
        vec![spot(104, 4).with(Value::Constant(var)), spot(109, 4).with(Value::Constant(one))],
        add_span,
    );
    let body = Block { code: Arc::new(vec![untagged(add, add_span)]) };
    let define = |name: Symbol, value: Value, at: usize| {
        untagged(
            Instruction::Define(DefineUnresolved {
                name: spot(at, 1).with(name),
                value: spot(at + 2, 1).with(value),
            }),
            spot(at, 3),
        )
    };
    let parsed = ParsedSyntax {
        expansion_info: info_with(&mut names, &[("A", 4)]),
        code: vec![
            define(one, Value::Resolved(ResolvedValue::Int(1)), 10),
            define(var, Value::Resolved(ResolvedValue::Ident(a)), 20),
            define(x, Value::Resolved(ResolvedValue::Block(body)), 30),
            define(y, Value::Constant(x), 40),
            define(z, Value::Constant(y), 50),
            untagged(Instruction::Constant(x), spot(60, 2)),
            untagged(Instruction::Constant(y), spot(70, 2)),
            untagged(Instruction::Constant(z), spot(80, 2)),
        ],
    };

    let expanded = match expand(parsed, &mut names) {
        Ok(v) => v,
        Err(e) => panic!("{e:?}"),
    };

    assert_eq!(expanded.expanded_code_components.len(), 3);
    for (i, component) in expanded.expanded_code_components.iter().enumerate() {
        assert_eq!(component.span, add_span);
        match &component.value {
            ExpandedCodeComponent::Instruction(Primitive::Add { amt, register }, block) => {
                assert_eq!(amt.value, 1);
                assert_eq!(amt.span, spot(109, 4));
                assert_eq!(register.reg_name.value, a);
                assert_eq!(register.modulus, None);
                assert_eq!(*block, BlockID(i + 1));
            }
            other => panic!("{other:?}"),
        }
    }
    assert_eq!(expanded.block_info.blocks.len(), 4);
    assert_eq!(expanded.block_info.blocks[0].child_blocks, vec![BlockID(1), BlockID(2), BlockID(3)]);
    assert_eq!(expanded.block_info.blocks[2].parent_block, Some(BlockID(0)));
    assert_eq!(expanded.block_info.blocks[0].defines.len(), 5);
}

fn expand_once(
    info: &mut ExpansionInfo,
    code: Vec<WithSpan<TaggedInstruction>>,
    names: &mut Interner,
) -> (Vec<WithSpan<TaggedInstruction>>, Vec<Diagnostic>, Option<Span>) {
    let mut code = code;
    let mut errs = Vec::new();
    let changed = expand_block(BlockID(0), info, &mut code, &mut errs, names);
    (code, errs, changed)
}

#[test]
fn a_define_cannot_shadow_in_its_block() {
    let mut names = Interner::new();
    let x = names.intern(b"X");
    let mut info = info_with(&mut names, &[]);
    let define = |at: usize, value: u64| {
        untagged(
            Instruction::Define(DefineUnresolved {
                name: spot(at, 1).with(x),
                value: spot(at + 2, 1).with(Value::Resolved(ResolvedValue::Int(value))),
            }),
            spot(at, 3),
        )
    };
    let (code, errs, changed) = expand_once(&mut info, vec![define(0, 1), define(10, 2)], &mut names);
    assert!(code.is_empty());
    assert_eq!(errs, vec![Diagnostic { span: spot(10, 1), kind: DiagnosticKind::DefineShadow }]);
    assert_eq!(changed, Some(spot(0, 3)));
    assert_eq!(info.block_info.blocks[0].defines.len(), 1);
    assert_eq!(info.block_info.blocks[0].defines[0].value.value, ResolvedValue::Int(1));

    // errors make the whole expansion fail, and all of them are reported
    let parsed = ParsedSyntax {
        expansion_info: info_with(&mut names, &[]),
        code: vec![define(0, 1), define(10, 2), define(20, 3)],
    };
    assert_eq!(
        expand(parsed, &mut names).unwrap_err(),
        vec![
            Diagnostic { span: spot(10, 1), kind: DiagnosticKind::DefineShadow },
            Diagnostic { span: spot(20, 1), kind: DiagnosticKind::DefineShadow },
        ]
    );
}

#[test]
fn constants_must_stand_for_blocks() {
    let mut names = Interner::new();
    let n = names.intern(b"n");
    let i = names.intern(b"i");
    let missing = names.intern(b"missing");
    let other = names.intern(b"other");
    let nowhere = names.intern(b"nowhere");
    let mut info = info_with(&mut names, &[]);
    let define = |name: Symbol, value: ResolvedValue, at: usize| {
        untagged(
            Instruction::Define(DefineUnresolved {
                name: spot(at, 1).with(name),
                value: spot(at + 2, 1).with(Value::Resolved(value)),
            }),
            spot(at, 3),
        )
    };
    let (code, errs, _) = expand_once(
        &mut info,
        vec![
            define(n, ResolvedValue::Int(3), 0),
            define(i, ResolvedValue::Ident(n), 10),
            untagged(Instruction::Constant(n), spot(20, 2)),
            untagged(Instruction::Constant(i), spot(30, 2)),
            untagged(Instruction::Constant(missing), spot(40, 8)),
            define(missing, ResolvedValue::Int(0), 50),
            untagged(
                Instruction::Define(DefineUnresolved {
                    name: spot(60, 1).with(other),
                    value: spot(62, 3).with(Value::Constant(nowhere)),
                }),
                spot(60, 5),
            ),
        ],
        &mut names,
    );
    assert!(code.is_empty());
    assert_eq!(
        errs,
        vec![
            Diagnostic {
                span: spot(20, 2),
                kind: DiagnosticKind::TypeMismatch {
                    expected: Expected::CodeBlock,
                    found: ValueKind::Int
                }
            },
            Diagnostic {
                span: spot(30, 2),
                kind: DiagnosticKind::TypeMismatch {
                    expected: Expected::CodeBlock,
                    found: ValueKind::Ident
                }
            },
            Diagnostic { span: spot(40, 8), kind: DiagnosticKind::UnresolvedConstant },
            Diagnostic { span: spot(62, 3), kind: DiagnosticKind::UnresolvedConstant },
        ]
    );
}

#[test]
fn labels_are_stamped_and_entered_once() {
    let mut names = Interner::new();
    let l = names.intern(b"loop");
    let mut info = info_with(&mut names, &[]);
    let label = Label { name: l, public: false, maybe_block_id: None, available_in_blocks: None };
    let (code, errs, changed) =
        expand_once(&mut info, vec![untagged(Instruction::Label(label.clone()), spot(3, 5))], &mut names);
    assert!(errs.is_empty());
    assert_eq!(changed, Some(spot(3, 5)));
    let stamped = Label { maybe_block_id: Some(BlockID(0)), ..label };
    assert_eq!(
        code,
        vec![spot(3, 5).with(TaggedInstruction {
            instruction: Instruction::Label(stamped.clone()),
            block_id: Some(BlockID(0))
        })]
    );
    assert_eq!(info.block_info.blocks[0].labels, vec![stamped.clone()]);

    let (code, errs, changed) = expand_once(&mut info, code, &mut names);
    assert!(errs.is_empty());
    assert_eq!(changed, None);
    assert_eq!(code.len(), 1);
    assert_eq!(info.block_info.blocks[0].labels, vec![stamped]);
}

fn run_builtin(
    kind: BuiltinMacro,
    names: &mut Interner,
    info: &ExpansionInfo,
    args: Vec<WithSpan<Value>>,
) -> Result<Primitive, Diagnostic> {
    let args = spot(50, 9).with(Arc::new(args));
    expand_builtin(kind, info, &args, BlockID(0), names).map(|code| {
        assert_eq!(code.len(), 1);
        match &code[0] {
            Instruction::Code(Code::Primitive(primitive)) => *primitive,
            other => panic!("{other:?}"),
        }
    })
}

fn count(at_least: usize, at_most: usize, found: usize) -> Diagnostic {
    Diagnostic { span: spot(50, 9), kind: DiagnosticKind::ArgumentCount { at_least, at_most, found } }
}

#[test]
fn add_takes_a_register_and_a_number() {
    let mut names = Interner::new();
    let info = info_with(&mut names, &[("A", 4)]);
    let a = names.intern(b"A");
    let reg = ident(&mut names, "A", spot(1, 1));
    assert_eq!(
        run_builtin(BuiltinMacro::Add, &mut names, &info, vec![reg, number(7, spot(3, 1))]),
        Ok(Primitive::Add {
            amt: spot(3, 1).with(7),
            register: RegisterReference { reg_name: spot(1, 1).with(a), modulus: None }
        })
    );
    let reg = ident(&mut names, "A", spot(1, 1));
    assert_eq!(run_builtin(BuiltinMacro::Add, &mut names, &info, vec![reg]), Err(count(2, 2, 1)));
    let reg = ident(&mut names, "A", spot(1, 1));
    let other = ident(&mut names, "A", spot(3, 1));
    assert_eq!(
        run_builtin(BuiltinMacro::Add, &mut names, &info, vec![reg, other]),
        Err(Diagnostic {
            span: spot(3, 1),
            kind: DiagnosticKind::TypeMismatch {
                expected: Expected::Number,
                found: ValueKind::Ident
            }
        })
    );
    assert_eq!(
        run_builtin(
            BuiltinMacro::Add,
            &mut names,
            &info,
            vec![number(1, spot(1, 1)), number(7, spot(3, 1))]
        ),
        Err(Diagnostic {
            span: spot(1, 1),
            kind: DiagnosticKind::TypeMismatch {
                expected: Expected::Register,
                found: ValueKind::Int
            }
        })
    );
    let unknown = constant(&mut names, "nothing", spot(3, 7));
    let reg = ident(&mut names, "A", spot(1, 1));
    assert_eq!(
        run_builtin(BuiltinMacro::Add, &mut names, &info, vec![reg, unknown]),
        Err(Diagnostic { span: spot(3, 7), kind: DiagnosticKind::UnresolvedConstant })
    );
    let b = names.intern(b"B");
    let reg = ident(&mut names, "B", spot(1, 1));
    assert_eq!(
        run_builtin(BuiltinMacro::Add, &mut names, &info, vec![reg, number(7, spot(3, 1))]),
        Err(Diagnostic { span: spot(1, 1), kind: DiagnosticKind::UnknownRegister { name: b } })
    );
}

#[test]
fn registers_may_carry_a_modulus() {
    let mut names = Interner::new();
    let info = info_with(&mut names, &[("A", 24)]);
    let a = names.intern(b"A");
    let reg = ident(&mut names, "A%6", spot(1, 3));
    let label = ident(&mut names, "done", spot(5, 4));
    let done = names.intern(b"done");
    assert_eq!(
        run_builtin(BuiltinMacro::SolvedGoto, &mut names, &info, vec![reg, label]),
        Ok(Primitive::SolvedGoto {
            label: spot(5, 4).with(LabelReference { name: done, block_id: BlockID(0) }),
            register: RegisterReference { reg_name: spot(1, 3).with(a), modulus: Some(6) }
        })
    );
    let reg = ident(&mut names, "A%", spot(1, 2));
    let label = ident(&mut names, "done", spot(5, 4));
    assert_eq!(
        run_builtin(BuiltinMacro::SolvedGoto, &mut names, &info, vec![reg, label]),
        Err(Diagnostic {
            span: spot(1, 2),
            kind: DiagnosticKind::InvalidModulus { error: ParseIntError::Empty }
        })
    );
    let reg = ident(&mut names, "A%x1", spot(1, 4));
    let label = ident(&mut names, "done", spot(5, 4));
    assert_eq!(
        run_builtin(BuiltinMacro::SolvedGoto, &mut names, &info, vec![reg, label]),
        Err(Diagnostic {
            span: spot(1, 4),
            kind: DiagnosticKind::InvalidModulus { error: ParseIntError::InvalidDigit }
        })
    );
    let reg = ident(&mut names, "A%99999999999999999999", spot(1, 22));
    let label = ident(&mut names, "done", spot(5, 4));
    assert_eq!(
        run_builtin(BuiltinMacro::SolvedGoto, &mut names, &info, vec![reg, label]),
        Err(Diagnostic {
            span: spot(1, 22),
            kind: DiagnosticKind::InvalidModulus { error: ParseIntError::Overflow }
        })
    );
    assert_eq!(parse_u64(b"18446744073709551615"), Ok(u64::MAX));
    assert_eq!(parse_u64(b"18446744073709551616"), Err(ParseIntError::Overflow));
    assert_eq!(parse_u64(b"007"), Ok(7));
    assert_eq!(RegisterReference::try_parse_mod(b"a%b%12"), Some(Ok((3, 12))));
    assert_eq!(RegisterReference::try_parse_mod(b"plain"), None);
}

#[test]
fn goto_input_halt_and_print() {
    let mut names = Interner::new();
    let info = info_with(&mut names, &[("A", 4)]);
    let a = names.intern(b"A");
    let register = RegisterReference { reg_name: spot(1, 1).with(a), modulus: None };

    let label = ident(&mut names, "over", spot(5, 4));
    let over = names.intern(b"over");
    assert_eq!(
        run_builtin(BuiltinMacro::Goto, &mut names, &info, vec![label]),
        Ok(Primitive::Goto {
            label: spot(5, 4).with(LabelReference { name: over, block_id: BlockID(0) })
        })
    );
    assert_eq!(run_builtin(BuiltinMacro::Goto, &mut names, &info, vec![]), Err(count(1, 1, 0)));
    assert_eq!(
        run_builtin(BuiltinMacro::Goto, &mut names, &info, vec![number(1, spot(5, 1))]),
        Err(Diagnostic {
            span: spot(5, 1),
            kind: DiagnosticKind::TypeMismatch { expected: Expected::Label, found: ValueKind::Int }
        })
    );

    let reg = ident(&mut names, "A", spot(1, 1));
    let message = ident(&mut names, "\"Your number:\"", spot(3, 14));
    let result = run_builtin(BuiltinMacro::Input, &mut names, &info, vec![reg, message]);
    let trimmed = names.lookup(b"Your number:").unwrap();
    assert_eq!(result, Ok(Primitive::Input { message: spot(3, 14).with(trimmed), register }));
    assert_eq!(trim_quotes_exec(b"\"\"a\"b\"\""), b"a\"b");
    assert_eq!(trim_quotes_exec(b"\"\"\""), b"");
    assert_eq!(trim_quotes_exec(b""), b"");
    assert_eq!(trim_quotes_exec(b"plain"), b"plain");

    let message = ident(&mut names, "Poggers", spot(3, 7));
    let poggers = names.intern(b"Poggers");
    assert_eq!(
        run_builtin(BuiltinMacro::Halt, &mut names, &info, vec![message]),
        Ok(Primitive::Halt { message: spot(3, 7).with(poggers), register: None })
    );
    let message = ident(&mut names, "Poggers", spot(3, 7));
    let reg = ident(&mut names, "A", spot(1, 1));
    assert_eq!(
        run_builtin(BuiltinMacro::Print, &mut names, &info, vec![message, reg]),
        Ok(Primitive::Print { message: spot(3, 7).with(poggers), register: Some(register) })
    );
    assert_eq!(run_builtin(BuiltinMacro::Print, &mut names, &info, vec![]), Err(count(1, 2, 0)));
    let three = vec![number(1, spot(0, 1)), number(2, spot(0, 1)), number(3, spot(0, 1))];
    assert_eq!(run_builtin(BuiltinMacro::Halt, &mut names, &info, three), Err(count(1, 2, 3)));
    assert_eq!(
        run_builtin(BuiltinMacro::Halt, &mut names, &info, vec![number(1, spot(9, 1))]),
        Err(Diagnostic {
            span: spot(9, 1),
            kind: DiagnosticKind::TypeMismatch {
                expected: Expected::Message,
                found: ValueKind::Int
            }
        })
    );
}

#[test]
fn the_builtin_macros_are_six() {
    let mut names = Interner::new();
    let macros = builtin_macros(7, &mut names);
    let listed: Vec<(Vec<u8>, BuiltinMacro)> = macros
        .iter()
        .map(|entry| {
            assert_eq!(entry.file, 7);
            assert_eq!(entry.definition.span, Span::new(7, 0, 0));
            match &entry.definition.value {
                Macro::Builtin(kind) => (names.text(entry.name).clone(), *kind),
                other => panic!("{other:?}"),
            }
        })
        .collect();
    assert_eq!(
        listed,
        vec![
            (b"add".to_vec(), BuiltinMacro::Add),
            (b"goto".to_vec(), BuiltinMacro::Goto),
            (b"solved-goto".to_vec(), BuiltinMacro::SolvedGoto),
            (b"input".to_vec(), BuiltinMacro::Input),
            (b"halt".to_vec(), BuiltinMacro::Halt),
            (b"print".to_vec(), BuiltinMacro::Print),
        ]
    );
}

#[test]
fn unknown_macros_are_refused() {
    let mut names = Interner::new();
    let mut info = info_with(&mut names, &[("A", 4)]);
    let instruction = call(&mut names, "frobnicate", vec![], spot(4, 10));
    let (code, errs, changed) = expand_once(&mut info, vec![untagged(instruction, spot(4, 12))], &mut names);
    assert!(code.is_empty());
    assert_eq!(errs, vec![Diagnostic { span: spot(4, 10), kind: DiagnosticKind::UnresolvedMacro }]);
    assert_eq!(changed, Some(spot(4, 12)));

    // a macro of another file that this file cannot see
    let add = names.intern(b"add");
    let elsewhere = Span::new(9, 4, 3);
    let instruction = Instruction::Code(Code::Macro(MacroCall {
        name: elsewhere.with(add),
        arguments: elsewhere.with(Arc::new(vec![])),
    }));
    let tagged = elsewhere.with(TaggedInstruction { instruction, block_id: Some(BlockID(0)) });
    let (code, errs, changed) = expand_once(&mut info, vec![tagged], &mut names);
    assert!(code.is_empty());
    assert_eq!(errs, vec![Diagnostic { span: elsewhere, kind: DiagnosticKind::UnresolvedMacro }]);
    assert_eq!(changed, Some(elsewhere));
}

fn slot(names: &mut Interner, name: &str, ty: MacroArgTy) -> WithSpan<MacroPatternComponent> {
    spot(0, 0).with(MacroPatternComponent::Argument {
        name: spot(0, 0).with(names.intern(name.as_bytes())),
        ty: spot(0, 0).with(ty),
    })
}

fn word(names: &mut Interner, text: &str) -> WithSpan<MacroPatternComponent> {
    spot(0, 0).with(MacroPatternComponent::Word(names.intern(text.as_bytes())))
}

#[test]
fn user_macros_bind_their_arguments_in_a_new_block() {
    let mut names = Interner::new();
    let mut info = info_with(&mut names, &[("A", 4), ("B", 4)]);
    // .macro move { (<- $to:reg $by:int) => { add $to $by }  ($n:int times) => { } }
    let body_span = spot(200, 11);
    let to = constant(&mut names, "to", spot(204, 3));
    let by = constant(&mut names, "by", spot(208, 3));
    let body = vec![untagged(call(&mut names, "add", vec![to, by], body_span), body_span)];
    let first = MacroBranch {
        pattern: spot(0, 0).with(MacroPattern(vec![
            word(&mut names, "<-"),
            slot(&mut names, "to", MacroArgTy::Reg),
            slot(&mut names, "by", MacroArgTy::Int),
        ])),
        code: Arc::new(body),
    };
    let second = MacroBranch {
        pattern: spot(0, 0).with(MacroPattern(vec![
            slot(&mut names, "n", MacroArgTy::Int),
            word(&mut names, "times"),
        ])),
        code: Arc::new(vec![]),
    };
    let name = names.intern(b"move");
    info.macros.push(MacroEntry {
        file: SOURCE,
        name,
        definition: spot(0, 0).with(Macro::UserDefined {
            branches: vec![spot(0, 0).with(first), spot(0, 0).with(second)],
        }),
    });
    info.available_macros.push(MacroAccess { file: SOURCE, name, defined_in: SOURCE });

    let arrow = ident(&mut names, "<-", spot(5, 2));
    let reg = ident(&mut names, "B", spot(8, 1));
    let use_first = call(&mut names, "move", vec![arrow, reg, number(3, spot(10, 1))], spot(0, 4));
    let times = ident(&mut names, "times", spot(30, 5));
    let use_second = call(&mut names, "move", vec![number(2, spot(28, 1)), times], spot(20, 4));
    let no_match = call(&mut names, "move", vec![number(2, spot(48, 1))], spot(40, 4));

    let (code, errs, changed) = expand_once(
        &mut info,
        vec![
            untagged(use_first, spot(0, 11)),
            untagged(use_second, spot(20, 15)),
            untagged(no_match, spot(40, 9)),
        ],
        &mut names,
    );
    assert_eq!(errs, vec![Diagnostic { span: spot(40, 4), kind: DiagnosticKind::NoMatchingBranch }]);
    assert_eq!(changed, Some(spot(0, 11)));
    assert_eq!(code.len(), 1);
    assert_eq!(code[0].span, body_span);
    assert_eq!(code[0].value.block_id, Some(BlockID(1)));
    assert_eq!(info.block_info.blocks.len(), 3);
    let defines = &info.block_info.blocks[1].defines;
    assert_eq!(defines.len(), 2);
    assert_eq!(defines[0].name.value, names.lookup(b"by").unwrap());
    assert_eq!(defines[0].value, spot(10, 1).with(ResolvedValue::Int(3)));
    assert_eq!(defines[1].name.value, names.lookup(b"to").unwrap());
    assert_eq!(info.block_info.blocks[2].defines.len(), 1);
    assert_eq!(info.block_info.blocks[2].defines[0].name.value, names.lookup(b"n").unwrap());
    assert_eq!(info.block_info.blocks[2].defines[0].value, spot(28, 1).with(ResolvedValue::Int(2)));
    assert_eq!(info.block_info.blocks[2].parent_block, Some(BlockID(0)));

    // the next pass expands the body with the arguments in scope
    let (code, errs, changed) = expand_once(&mut info, code, &mut names);
    assert!(errs.is_empty());
    assert_eq!(changed, Some(body_span));
    assert_eq!(
        code,
        vec![body_span.with(TaggedInstruction {
            instruction: Instruction::Code(Code::Primitive(Primitive::Add {
                amt: spot(208, 3).with(3),
                register: RegisterReference {
                    reg_name: spot(204, 3).with(names.lookup(b"B").unwrap()),
                    modulus: None
                },
            })),
            block_id: Some(BlockID(1)),
        })]
    );
    let (_, errs, changed) = expand_once(&mut info, code, &mut names);
    assert!(errs.is_empty());
    assert_eq!(changed, None);
}

#[test]
fn pattern_conflicts_are_symmetric() {
    let mut names = Interner::new();
    let kinds = [MacroArgTy::Int, MacroArgTy::Reg, MacroArgTy::Block, MacroArgTy::Ident];
    let mut components: Vec<MacroPatternComponent> =
        kinds.iter().map(|ty| slot(&mut names, "x", *ty).value).collect();
    components.push(word(&mut names, "to").value);
    components.push(word(&mut names, "from").value);
    for a in &components {
        for b in &components {
            assert_eq!(a.conflicts_with(b, &names), b.conflicts_with(a, &names));
        }
    }
    let int = components[0];
    let reg = components[1];
    let block = components[2];
    let ident = components[3];
    let to = components[4];
    let from = components[5];
    assert_eq!(int.conflicts_with(&int, &names), Some(b"123".to_vec()));
    assert_eq!(reg.conflicts_with(&ident, &names), Some(b"a".to_vec()));
    assert_eq!(block.conflicts_with(&block, &names), Some(b"{ }".to_vec()));
    assert_eq!(ident.conflicts_with(&to, &names), Some(b"to".to_vec()));
    assert_eq!(to.conflicts_with(&to, &names), Some(b"to".to_vec()));
    assert_eq!(to.conflicts_with(&from, &names), None);
    assert_eq!(int.conflicts_with(&reg, &names), None);
    assert_eq!(int.conflicts_with(&to, &names), None);
    assert_eq!(block.conflicts_with(&ident, &names), None);

    let first = MacroPattern(vec![spot(0, 0).with(reg), spot(0, 0).with(to), spot(0, 0).with(int)]);
    let second = MacroPattern(vec![spot(0, 0).with(from), spot(0, 0).with(ident), spot(0, 0).with(int)]);
    let third = MacroPattern(vec![spot(0, 0).with(from), spot(0, 0).with(ident)]);
    let fourth = MacroPattern(vec![spot(0, 0).with(block), spot(0, 0).with(to), spot(0, 0).with(int)]);
    assert_eq!(first.conflicts_with(b"mv", &second, &names), Some(b"mv from to 123".to_vec()));
    assert_eq!(second.conflicts_with(b"mv", &first, &names), Some(b"mv from to 123".to_vec()));
    assert_eq!(first.conflicts_with(b"mv", &third, &names), None);
    assert_eq!(third.conflicts_with(b"mv", &first, &names), None);
    assert_eq!(first.conflicts_with(b"mv", &fourth, &names), None);
    assert_eq!(fourth.conflicts_with(b"mv", &first, &names), None);
    let empty = MacroPattern(vec![]);
    assert_eq!(empty.conflicts_with(b"mv", &empty, &names), Some(b"mv".to_vec()));
}

fn copies(list: &[WithSpan<ResolvedValue>]) -> Vec<WithSpan<ResolvedValue>> {
    list.iter().map(|item| item.span.with(item.value.clone())).collect()
}

#[test]
fn patterns_take_arguments_of_their_kinds() {
    let mut names = Interner::new();
    let pattern = MacroPattern(vec![
        slot(&mut names, "n", MacroArgTy::Int),
        word(&mut names, "of"),
        slot(&mut names, "what", MacroArgTy::Ident),
        slot(&mut names, "body", MacroArgTy::Block),
    ]);
    let of = names.intern(b"of");
    let cube = names.intern(b"cube");
    let block = ResolvedValue::Block(Block { code: Arc::new(vec![]) });
    let args = vec![
        spot(1, 1).with(ResolvedValue::Int(3)),
        spot(2, 2).with(ResolvedValue::Ident(of)),
        spot(3, 4).with(ResolvedValue::Ident(cube)),
        spot(4, 3).with(block.clone()),
    ];
    let defines = pattern.matches(args).unwrap();
    assert_eq!(defines.len(), 3);
    assert_eq!(defines[0].0, names.lookup(b"n").unwrap());
    assert_eq!(defines[0].1.value, spot(1, 1).with(ResolvedValue::Int(3)));
    assert_eq!(defines[1].1.value, spot(3, 4).with(ResolvedValue::Ident(cube)));
    assert_eq!(defines[2].1.value, spot(4, 3).with(block));

    let wrong_word = vec![
        spot(1, 1).with(ResolvedValue::Int(3)),
        spot(2, 2).with(ResolvedValue::Ident(cube)),
        spot(3, 4).with(ResolvedValue::Ident(cube)),
        spot(4, 3).with(ResolvedValue::Block(Block { code: Arc::new(vec![]) })),
    ];
    assert_eq!(pattern.matches(copies(&wrong_word)), Err(wrong_word));
    let too_short = vec![spot(1, 1).with(ResolvedValue::Int(3))];
    assert_eq!(pattern.matches(copies(&too_short)), Err(too_short));
}

#[test]
fn labels_resolve_to_the_nearest_block_that_admits_them() {
    let mut names = Interner::new();
    let target = names.intern(b"target");
    let other = names.intern(b"other");
    let mut tracker = BlockInfoTracker::new();
    let child = tracker.new_block(BlockID(0));
    let grandchild = tracker.new_block(child);
    let sibling = tracker.new_block(BlockID(0));
    assert_eq!((child, grandchild, sibling), (BlockID(1), BlockID(2), BlockID(3)));
    let label = |name: Symbol, block: BlockID, available: Option<Vec<BlockID>>| Label {
        name,
        public: false,
        maybe_block_id: Some(block),
        available_in_blocks: available.map(Arc::new),
    };
    tracker.add_label(BlockID(0), label(target, BlockID(0), None));
    tracker.add_label(child, label(target, child, Some(vec![child])));
    tracker.add_label(child, label(other, child, None));

    let resolve = |name: Symbol, from: BlockID| {
        tracker.label_scope(&LabelReference { name, block_id: from })
    };
    // the label of the child is only visible from the child itself
    assert_eq!(resolve(target, child), Some(LabelReference { name: target, block_id: child }));
    assert_eq!(
        resolve(target, grandchild),
        Some(LabelReference { name: target, block_id: BlockID(0) })
    );
    assert_eq!(resolve(target, sibling), Some(LabelReference { name: target, block_id: BlockID(0) }));
    assert_eq!(resolve(other, grandchild), Some(LabelReference { name: other, block_id: child }));
    assert_eq!(resolve(other, sibling), None);
    assert_eq!(resolve(other, BlockID(0)), None);
    assert_eq!(resolve(other, BlockID(17)), None);
}

#[test]
fn interned_names_are_equal_when_their_texts_are() {
    let mut names = Interner::new();
    let a = names.intern(b"a");
    let b = names.intern(b"b");
    assert_ne!(a, b);
    assert_eq!(names.intern(b"a"), a);
    assert_eq!(names.len(), 2);
    assert_eq!(names.text(b), b"b");
    assert_eq!(names.lookup(b"c"), None);
    assert_eq!(names.lookup(b"b"), Some(b));
}

#[test]
fn spans_merge_to_what_covers_both() {
    assert_eq!(Span::new(3, 10, 5).merge(Span::new(4, 2, 3)), Span::new(3, 2, 13));
    assert_eq!(Span::new(3, 10, 5).merge(Span::new(3, 12, 30)), Span::new(3, 10, 32));
    assert_eq!(Span::new(3, 10, 5).merge(Span::new(3, 11, 1)), Span::new(3, 10, 5));
    let file = File::new(b"ab\ncd\n\nef".to_vec());
    assert_eq!(file.line(Span::new(0, 0, 1)), 1);
    assert_eq!(file.line(Span::new(0, 3, 2)), 2);
    assert_eq!(file.col(Span::new(0, 4, 1)), 2);
    assert_eq!(file.line(Span::new(0, 7, 2)), 4);
    assert_eq!(file.col(Span::new(0, 7, 2)), 1);
    assert_eq!(file.slice(Span::new(0, 7, 2)), b"ef");
}

fn lines(words: &[&str], width: usize) -> Vec<String> {
    let words: Vec<Vec<u8>> = words.iter().map(|word| word.as_bytes().to_vec()).collect();
    qter::compiler::line_splitting::split_strings(&words, width)
        .into_iter()
        .map(|line| String::from_utf8(line).unwrap())
        .collect()
}

#[test]
fn test_split_strings() {
    assert_eq!(lines(&["A", "B", "C", "D"], 5), vec!["A B", "C D"]);

    assert_eq!(lines(&["A", "B", "C", "D"], 2), vec!["A", "B", "C", "D"]);

    assert_eq!(lines(&["A", "BRUH", "C", "D"], 3), vec!["A", "BRUH", "C D"]);
}

#[test]
fn lines_are_few_and_even() {
    assert!(lines(&[], 10).is_empty());
    assert_eq!(lines(&["word"], 0), vec!["word"]);
    assert_eq!(lines(&["a", "b"], 0), vec!["a", "b"]);
    // A word that fills the width stands alone; a line may fill the width.
    assert_eq!(lines(&["a", "bcd", "e", "f"], 3), vec!["a", "bcd", "e f"]);
    assert_eq!(lines(&["a", "bcd", "e", "f"], 4), vec!["a", "bcd", "e f"]);
    // Of two ways whose longest lines are as long, the one that ends with the
    // fewer words is taken.
    assert_eq!(lines(&["a", "b", "c", "d", "e"], 5), vec!["a b c", "d e"]);
    assert_eq!(lines(&["a", "b", "c", "d", "e", "f", "g"], 5), vec!["a b c", "d e f", "g"]);
    assert_eq!(lines(&["aa", "b", "cc", "d", "ee"], 6), vec!["aa b", "cc d", "ee"]);
    assert_eq!(lines(&["aa", "b", "cc", "d", "ee"], 8), vec!["aa b cc", "d ee"]);
    assert_eq!(lines(&["aa", "b", "cc", "d", "ee"], 12), vec!["aa b cc d ee"]);
    assert_eq!(lines(&["aa", "b", "cc", "d", "ee"], 11), vec!["aa b cc", "d ee"]);
    // The lines are made even rather than full.
    let moves = ["R", "U2", "D'", "B", "D'", "R", "U2", "D'", "B", "D'", "R", "U2", "D'", "B", "D'"];
    let broken = lines(&moves, 14);
    assert_eq!(broken, vec!["R U2 D' B D'", "R U2 D' B D'", "R U2 D' B D'"]);
    for width in 1..40 {
        let broken = lines(&moves, width);
        assert_eq!(broken.join(" ").split(' ').collect::<Vec<_>>(), moves.to_vec());
        for line in &broken {
            assert!(line.len() <= width || !line.contains(' '));
        }
        // No way that fills its lines greedily takes fewer lines.
        let mut greedy = 0;
        let mut room = 0;
        for word in moves {
            if word.len() >= width {
                greedy += 1;
                room = 0;
            } else if room > word.len() {
                room -= word.len() + 1;
            } else {
                greedy += 1;
                room = width - word.len();
            }
        }
        assert!(broken.len() <= greedy, "width {width}");
    }
}

/// The cube of three layers: forty-eight facelets, eight on each face, faces
/// in the order up, left, front, right, back, down, each face row by row.
fn cube() -> Arc<PermutationGroup> {
    let turns: [(&str, [[usize; 4]; 5]); 6] = [
        ("U", [[1, 3, 8, 6], [2, 5, 7, 4], [9, 33, 25, 17], [10, 34, 26, 18], [11, 35, 27, 19]]),
        ("L", [[9, 11, 16, 14], [10, 13, 15, 12], [1, 17, 41, 40], [4, 20, 44, 37], [6, 22, 46, 35]]),
        ("F", [[17, 19, 24, 22], [18, 21, 23, 20], [6, 25, 43, 16], [7, 28, 42, 13], [8, 30, 41, 11]]),
        ("R", [[25, 27, 32, 30], [26, 29, 31, 28], [3, 38, 43, 19], [5, 36, 45, 21], [8, 33, 48, 24]]),
        ("B", [[33, 35, 40, 38], [34, 37, 39, 36], [3, 9, 46, 32], [2, 12, 47, 29], [1, 14, 48, 27]]),
        ("D", [[41, 43, 48, 46], [42, 45, 47, 44], [14, 22, 30, 38], [15, 23, 31, 39], [16, 24, 32, 40]]),
    ];
    let pieces_of: [&[usize]; 20] = [
        &[6, 17, 11],
        &[8, 19, 25],
        &[3, 27, 33],
        &[1, 35, 9],
        &[41, 22, 16],
        &[43, 24, 30],
        &[48, 32, 38],
        &[46, 40, 14],
        &[7, 18],
        &[5, 26],
        &[2, 34],
        &[4, 10],
        &[20, 13],
        &[21, 28],
        &[36, 29],
        &[37, 12],
        &[42, 23],
        &[45, 31],
        &[47, 39],
        &[44, 15],
    ];
    let faces = ["white", "orange", "green", "red", "blue", "yellow"];
    let colors: Vec<String> = (0..48).map(|f| faces[f / 8].to_string()).collect();
    let mut pieces: Vec<String> = vec![String::new(); 48];
    for (number, facelets) in pieces_of.iter().enumerate() {
        for facelet in facelets.iter() {
            pieces[facelet - 1] = format!("piece {number}");
        }
    }
    let mut moves: Vec<(Vec<u8>, Permutation)> = Vec::new();
    for (name, cycles) in turns {
        let cycles: Vec<Vec<usize>> =
            cycles.iter().map(|cycle| cycle.iter().map(|f| f - 1).collect()).collect();
        let quarter = Permutation::from_cycles(cycles).unwrap();
        let half = quarter.compose(&quarter);
        let back = quarter.inverse();
        moves.push((name.as_bytes().to_vec(), quarter));
        moves.push((format!("{name}2").into_bytes(), half));
        moves.push((format!("{name}'").into_bytes(), back));
    }
    Arc::new(PermutationGroup::new(colors, pieces, moves).unwrap())
}

/// The nested defines of a program for a cube, through every stage that the
/// library has: the expansion, the gathering of the additions, the algorithm
/// for what they add, and the listing.
#[test]
fn test_define() {
    let code = "
            .registers {
                A <- 3x3 (U)
            }

            .define one 1
            .define var A

            .define X {
                add $var $one
            }
            .define Y $X
            .define Z $Y

            $X
            $Y
            $Z
        ";
    let group = cube();
    let arch = Arc::new(Architecture::new(Arc::clone(&group), &vec![vec![b"U".to_vec()]]).unwrap());
    let mut names = Interner::new();
    let a = names.intern(b"A");
    let macros = builtin_macros(PRELUDE, &mut names);
    let available_macros =
        macros.iter().map(|entry| MacroAccess { file: SOURCE, name: entry.name, defined_in: PRELUDE }).collect();
    let declared = find(code, "A <- 3x3 (U)", 0);
    let registers = RegistersDecl {
        puzzles: vec![Puzzle::Real {
            architectures: vec![ArchitectureDecl {
                names: vec![find(code, "A", 0).with(a)],
                architecture: find(code, "(U)", 0).with(Arc::clone(&arch)),
                definition: find(code, "3x3", 0),
            }],
        }],
    };
    let info = ExpansionInfo {
        registers: Some(declared.with(registers)),
        block_info: BlockInfoTracker::new(),
        macros,
        available_macros,
    };
    let add_span = find(code, "add $var $one", 0);
    let arguments = vec![
        constant(&mut names, "var", find(code, "$var", 0)),
        constant(&mut names, "one", find(code, "$one", 0)),
    ];
    let add = call(&mut names, "add", arguments, add_span);
    let body = Block { code: Arc::new(vec![untagged(add, add_span)]) };
    let mut define = |name: &str, value: Value, line: &str| {
        let span = find(code, line, 0);
        untagged(
            Instruction::Define(DefineUnresolved {
                name: span.with(names.intern(name.as_bytes())),
                value: span.with(value),
            }),
            span,
        )
    };
    let one = define("one", Value::Resolved(ResolvedValue::Int(1)), ".define one 1");
    let var = define("var", Value::Resolved(ResolvedValue::Ident(a)), ".define var A");
    let x = define("X", Value::Resolved(ResolvedValue::Block(body)), ".define X {");
    let x_name = Symbol(x_symbol(&x));
    let y = define("Y", Value::Constant(x_name), ".define Y $X");
    let y_name = Symbol(x_symbol(&y));
    let z = define("Z", Value::Constant(y_name), ".define Z $Y");
    let z_name = Symbol(x_symbol(&z));
    let parsed = ParsedSyntax {
        expansion_info: info,
        code: vec![
            one,
            var,
            x,
            y,
            z,
            untagged(Instruction::Constant(x_name), find(code, "$X", 1)),
            untagged(Instruction::Constant(y_name), find(code, "$Y", 1)),
            untagged(Instruction::Constant(z_name), find(code, "$Z", 0)),
        ],
    };

    let expanded = match expand(parsed, &mut names) {
        Ok(v) => v,
        Err(e) => panic!("{e:?}"),
    };

    // Every addition names the register of the puzzle.
    let regs = GlobalRegs {
        registers: vec![(a, RegisterLocation::Puzzle { puzzle: PuzzleIdx(0), reg_idx: 0, arch: Arc::clone(&arch) })],
    };
    let mut gathered = CoalesceAdds::new();
    let mut out = Vec::new();
    for component in expanded.expanded_code_components {
        let ExpandedCodeComponent::Instruction(Primitive::Add { amt, register }, block) = component.value else {
            panic!("no addition")
        };
        let Some(FoundRegister::Puzzle { puzzle, reg_idx, arch, modulus: None }) = regs.get_reg(&register) else {
            panic!("no register")
        };
        let added = OptimizingPrimitive::AddPuzzle { puzzle, arch, amts: vec![(reg_idx, amt)] };
        out.extend(gathered.rewrite(component.span.with(OptimizingCodeComponent::Instruction(added, block)), &regs));
    }
    out.extend(gathered.eof(&regs));
    assert_eq!(out.len(), 1);
    let OptimizingCodeComponent::Instruction(OptimizingPrimitive::AddPuzzle { amts, .. }, _) = &out[0].value else {
        panic!("no addition")
    };
    let effect: Vec<(usize, u64)> = amts.iter().map(|(register, amt)| (*register, amt.value)).collect();
    assert_eq!(effect, vec![(0, 3)]);

    let algorithm = new_from_effect(Arc::clone(&group), &arch.decoding_table(), effect).unwrap();
    let program = QProgram {
        theoretical: 0,
        puzzles: vec![File::new(code.as_bytes().to_vec()).slice(find(code, "3x3", 0)).to_vec()],
        instructions: vec![QInstruction::PerformAlgorithm { algorithm }],
    };
    let (q_code, _) = emit_q(&program).unwrap();

    assert_eq!(
        String::from_utf8(q_code).unwrap(),
        r"Puzzles
A: 3x3

0 | U'
"
    );
}

fn x_symbol(define: &WithSpan<TaggedInstruction>) -> usize {
    match &define.value.instruction {
        Instruction::Define(define) => define.name.value.0,
        _ => panic!("no define"),
    }
}

/// A loop over two registers of a cube expands to its nine parts.
#[test]
fn bruh() {
    let code = "
            .registers {
                a, b ← 3x3 builtin (90, 90)
            }

            loop:
                add a 1
                print \"What da heck\" a
                solved-goto a loop

                add b 89
                solved-goto b over
                goto loop

            over:

                halt Poggers b
        ";
    let group = cube();
    let algorithms: Vec<Vec<Vec<u8>>> = ["R' F' L U' L U L F U' R", "U F R' D' R2 F R' U' D"]
        .iter()
        .map(|algorithm| algorithm.split(' ').map(|name| name.as_bytes().to_vec()).collect())
        .collect();
    let arch = Arc::new(Architecture::new(Arc::clone(&group), &algorithms).unwrap());
    let mut names = Interner::new();
    let a = names.intern(b"a");
    let b = names.intern(b"b");
    let macros = builtin_macros(PRELUDE, &mut names);
    let available_macros =
        macros.iter().map(|entry| MacroAccess { file: SOURCE, name: entry.name, defined_in: PRELUDE }).collect();
    let registers = RegistersDecl {
        puzzles: vec![Puzzle::Real {
            architectures: vec![ArchitectureDecl {
                names: vec![find(code, "a", 0).with(a), find(code, "b", 0).with(b)],
                architecture: find(code, "(90, 90)", 0).with(Arc::clone(&arch)),
                definition: find(code, "3x3", 0),
            }],
        }],
    };
    let info = ExpansionInfo {
        registers: Some(find(code, "a, b", 0).with(registers)),
        block_info: BlockInfoTracker::new(),
        macros,
        available_macros,
    };
    let label = |names: &mut Interner, name: &str| {
        let span = find(code, &format!("{name}:"), 0);
        untagged(
            Instruction::Label(Label {
                name: names.intern(name.as_bytes()),
                public: false,
                maybe_block_id: None,
                available_in_blocks: None,
            }),
            span,
        )
    };
    let line = |names: &mut Interner, text: &str, word: &str, arguments: &[&str]| {
        let span = find(code, text, 0);
        let arguments = arguments
            .iter()
            .map(|argument| match argument.parse::<u64>() {
                Ok(value) => number(value, span),
                Err(_) => ident(names, argument, span),
            })
            .collect();
        untagged(call(names, word, arguments, span), span)
    };
    let parsed = ParsedSyntax {
        expansion_info: info,
        code: vec![
            label(&mut names, "loop"),
            line(&mut names, "add a 1", "add", &["a", "1"]),
            line(&mut names, "print \"What da heck\" a", "print", &["\"What da heck\"", "a"]),
            line(&mut names, "solved-goto a loop", "solved-goto", &["a", "loop"]),
            line(&mut names, "add b 89", "add", &["b", "89"]),
            line(&mut names, "solved-goto b over", "solved-goto", &["b", "over"]),
            line(&mut names, "goto loop", "goto", &["loop"]),
            label(&mut names, "over"),
            line(&mut names, "halt Poggers b", "halt", &["Poggers", "b"]),
        ],
    };

    let expanded = match expand(parsed, &mut names) {
        Ok(v) => v,
        Err(e) => panic!("{e:?}"),
    };

    let kinds: Vec<&str> = expanded
        .expanded_code_components
        .iter()
        .map(|component| match &component.value {
            ExpandedCodeComponent::Label(_) => "label",
            ExpandedCodeComponent::Instruction(Primitive::Add { .. }, _) => "add",
            ExpandedCodeComponent::Instruction(Primitive::Print { .. }, _) => "print",
            ExpandedCodeComponent::Instruction(Primitive::SolvedGoto { .. }, _) => "solved-goto",
            ExpandedCodeComponent::Instruction(Primitive::Goto { .. }, _) => "goto",
            ExpandedCodeComponent::Instruction(Primitive::Halt { .. }, _) => "halt",
            ExpandedCodeComponent::Instruction(Primitive::Input { .. }, _) => "input",
        })
        .collect();
    assert_eq!(
        kinds,
        vec!["label", "add", "print", "solved-goto", "add", "solved-goto", "goto", "label", "halt"]
    );
    // A message that is printed stays as it was written.
    let what = names.lookup(b"\"What da heck\"").unwrap();
    match &expanded.expanded_code_components[2].value {
        ExpandedCodeComponent::Instruction(Primitive::Print { message, register }, block) => {
            assert_eq!(message.value, what);
            assert_eq!(register.as_ref().unwrap().reg_name.value, a);
            assert_eq!(*block, BlockID(0));
        }
        other => panic!("{other:?}"),
    }
    match &expanded.expanded_code_components[4].value {
        ExpandedCodeComponent::Instruction(Primitive::Add { amt, register }, _) => {
            assert_eq!((amt.value, register.reg_name.value), (89, b));
        }
        other => panic!("{other:?}"),
    }
}
