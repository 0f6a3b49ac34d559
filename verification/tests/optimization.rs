use qter::architectures::{Architecture, CycleGenerator, CycleGeneratorSubcycle};
use qter::compiler::optimization::local::{
    CoalesceAdds, RemoveUnreachableCode, RemoveUselessJumps, RepeatUntil1, RepeatUntil2,
    RepeatUntil3, TransformSolve, VectorizeRepeatUntil,
};
use qter::compiler::optimization::{
    ByPuzzleType, GlobalRegs, OptimizingCodeComponent, OptimizingPrimitive, PuzzleIdx,
    RegisterLocation, TheoreticalIdx,
};
use qter::compiler::syntax::{BlockID, Label, LabelReference, RegisterReference};
use qter::names::Symbol;
use qter::permutations::{Algorithm, PermutationGroup};
use qter::span::{Span, WithSpan};
use std::collections::VecDeque;
use std::sync::Arc;

type Component = WithSpan<OptimizingCodeComponent>;

const A: Symbol = Symbol(0);
const B: Symbol = Symbol(1);
const T: Symbol = Symbol(2);
const C: Symbol = Symbol(3);
const LOOP: Symbol = Symbol(10);
const EXIT: Symbol = Symbol(11);
const INNER: Symbol = Symbol(12);

fn spot(start: usize, len: usize) -> Span {
    Span::new(0, start, len)
}

/// An architecture with registers of the given orders, each with cycles of
/// the given chromatic orders.
fn architecture(registers: &[(u64, &[u64])]) -> Arc<Architecture> {
    let group = Arc::new(PermutationGroup::new(vec![], vec![], vec![]).unwrap());
    Arc::new(Architecture {
        perm_group: Arc::clone(&group),
        registers: registers
            .iter()
            .map(|(order, cycles)| CycleGenerator {
                algorithm: Algorithm::new_from_move_seq(Arc::clone(&group), vec![]).unwrap(),
                unshared_cycles: cycles
                    .iter()
                    .map(|order| CycleGeneratorSubcycle { facelet_cycle: vec![], chromatic_order: *order })
                    .collect(),
                order: *order,
            })
            .collect(),
        shared_facelets: vec![],
        optimized_table: vec![],
    })
}

fn catalogue(arch: &Arc<Architecture>, other: &Arc<Architecture>) -> GlobalRegs {
    GlobalRegs {
        registers: vec![
            (A, RegisterLocation::Puzzle { puzzle: PuzzleIdx(0), reg_idx: 0, arch: Arc::clone(arch) }),
            (B, RegisterLocation::Puzzle { puzzle: PuzzleIdx(0), reg_idx: 1, arch: Arc::clone(arch) }),
            (T, RegisterLocation::Theoretical { idx: TheoreticalIdx(0) }),
            (C, RegisterLocation::Puzzle { puzzle: PuzzleIdx(1), reg_idx: 0, arch: Arc::clone(other) }),
        ],
    }
}

fn reg(name: Symbol) -> RegisterReference {
    RegisterReference { reg_name: spot(0, 1).with(name), modulus: None }
}

fn reg_mod(name: Symbol, modulus: u64) -> RegisterReference {
    RegisterReference { reg_name: spot(0, 1).with(name), modulus: Some(modulus) }
}

fn target(name: Symbol, block: usize) -> WithSpan<LabelReference> {
    spot(0, 4).with(LabelReference { name, block_id: BlockID(block) })
}

fn label(name: Symbol, block: usize, at: usize) -> Component {
    spot(at, 1).with(OptimizingCodeComponent::Label(Label {
        name,
        public: false,
        maybe_block_id: Some(BlockID(block)),
        available_in_blocks: None,
    }))
}

fn instr(primitive: OptimizingPrimitive, block: usize, at: usize) -> Component {
    spot(at, 1).with(OptimizingCodeComponent::Instruction(primitive, BlockID(block)))
}

fn goto(name: Symbol, to_block: usize, at: usize) -> Component {
    instr(OptimizingPrimitive::Goto { label: target(name, to_block) }, 0, at)
}

fn solved_goto(register: RegisterReference, name: Symbol, to_block: usize, at: usize) -> Component {
    instr(OptimizingPrimitive::SolvedGoto { label: target(name, to_block), register }, 0, at)
}

fn amts(list: &[(usize, u64)]) -> Vec<(usize, WithSpan<u64>)> {
    list.iter().map(|(reg, amt)| (*reg, spot(90, 1).with(*amt))).collect()
}

fn add_puzzle(puzzle: usize, arch: &Arc<Architecture>, list: &[(usize, u64)], at: usize) -> Component {
    instr(
        OptimizingPrimitive::AddPuzzle { puzzle: PuzzleIdx(puzzle), arch: Arc::clone(arch), amts: amts(list) },
        0,
        at,
    )
}

fn add_theoretical(idx: usize, amt: u64, block: usize, at: usize) -> Component {
    instr(
        OptimizingPrimitive::AddTheoretical { theoretical: TheoreticalIdx(idx), amt: spot(90, 1).with(amt) },
        block,
        at,
    )
}

fn halt(at: usize) -> Component {
    instr(OptimizingPrimitive::Halt { message: spot(0, 1).with(Symbol(20)), register: None }, 0, at)
}

fn repeat_until(
    puzzle: usize,
    arch: &Arc<Architecture>,
    list: &[(usize, u64)],
    register: RegisterReference,
    block: usize,
    span: Span,
) -> Component {
    span.with(OptimizingCodeComponent::Instruction(
        OptimizingPrimitive::RepeatUntil {
            puzzle: PuzzleIdx(puzzle),
            arch: Arc::clone(arch),
            amts: amts(list),
            register,
        },
        BlockID(block),
    ))
}

/// What a part says, without the architecture that it carries.
fn show(part: &Component) -> String {
    let inner = match &part.value {
        OptimizingCodeComponent::Label(label) => format!("{}@{:?}:", label.name.0, label.maybe_block_id.map(|b| b.0)),
        OptimizingCodeComponent::Instruction(primitive, block) => {
            let list = |amts: &Vec<(usize, WithSpan<u64>)>| {
                amts.iter().map(|(reg, amt)| format!("{reg}+{}", amt.value)).collect::<Vec<_>>().join(",")
            };
            let text = match primitive {
                OptimizingPrimitive::AddTheoretical { theoretical, amt } => {
                    format!("addt {} {}", theoretical.0, amt.value)
                }
                OptimizingPrimitive::AddPuzzle { puzzle, amts, .. } => {
                    format!("addp {} [{}]", puzzle.0, list(amts))
                }
                OptimizingPrimitive::Goto { label } => {
                    format!("goto {}@{}", label.value.name.0, label.value.block_id.0)
                }
                OptimizingPrimitive::SolvedGoto { label, register } => format!(
                    "solved-goto {}%{:?} {}@{}",
                    register.reg_name.value.0, register.modulus, label.value.name.0, label.value.block_id.0
                ),
                OptimizingPrimitive::RepeatUntil { puzzle, amts, register, .. } => format!(
                    "repeat {} [{}] until {}%{:?}",
                    puzzle.0,
                    list(amts),
                    register.reg_name.value.0,
                    register.modulus
                ),
                OptimizingPrimitive::Solve { puzzle } => format!("solve {puzzle:?}"),
                OptimizingPrimitive::Halt { .. } => "halt".to_string(),
                OptimizingPrimitive::Print { .. } => "print".to_string(),
                OptimizingPrimitive::Input { .. } => "input".to_string(),
            };
            format!("{text} #{}", block.0)
        }
    };
    format!("{inner} <{}+{}>", part.span.start, part.span.len)
}

fn shown<'a>(parts: impl IntoIterator<Item = &'a Component>) -> Vec<String> {
    parts.into_iter().map(show).collect()
}

#[test]
fn unreachable_code_is_dropped_up_to_the_next_label() {
    let arch = architecture(&[(4, &[4])]);
    let regs = catalogue(&arch, &arch);
    let code = vec![
        add_theoretical(0, 1, 0, 0),
        goto(EXIT, 0, 1),
        add_theoretical(0, 2, 0, 2),
        goto(LOOP, 0, 3),
        label(LOOP, 0, 4),
        halt(5),
        add_theoretical(0, 3, 0, 6),
        label(EXIT, 0, 7),
        add_theoretical(0, 4, 0, 8),
        halt(9),
        halt(10),
    ];
    let mut pass = RemoveUnreachableCode::new();
    let mut out = Vec::new();
    for part in code {
        out.extend(pass.rewrite(part, &regs));
    }
    out.extend(pass.eof(&regs));
    assert_eq!(
        shown(&out),
        vec![
            "addt 0 1 #0 <0+1>",
            "goto 11@0 #0 <1+1>",
            "10@Some(0): <4+1>",
            "halt #0 <5+1>",
            "11@Some(0): <7+1>",
            "addt 0 4 #0 <8+1>",
            "halt #0 <9+1>",
        ]
    );
}

#[test]
fn jumps_to_the_next_label_are_dropped() {
    let arch = architecture(&[(4, &[4])]);
    let regs = catalogue(&arch, &arch);
    let run = |parts: Vec<Component>| {
        let mut window = VecDeque::from(parts);
        RemoveUselessJumps::try_match(&mut window, &regs);
        shown(&window)
    };
    assert_eq!(RemoveUselessJumps::max_window_size(), 2);
    assert_eq!(run(vec![goto(LOOP, 0, 0), label(LOOP, 0, 1)]), vec!["10@Some(0): <1+1>"]);
    assert_eq!(run(vec![solved_goto(reg(A), LOOP, 3, 0), label(LOOP, 3, 1)]), vec!["10@Some(3): <1+1>"]);
    // another name, another block, or no jump at all
    assert_eq!(run(vec![goto(EXIT, 0, 0), label(LOOP, 0, 1)]).len(), 2);
    assert_eq!(run(vec![goto(LOOP, 1, 0), label(LOOP, 0, 1)]).len(), 2);
    assert_eq!(run(vec![halt(0), label(LOOP, 0, 1)]).len(), 2);
    assert_eq!(run(vec![goto(LOOP, 0, 0), halt(1)]).len(), 2);
    assert_eq!(run(vec![goto(LOOP, 0, 0)]).len(), 1);
    assert_eq!(run(vec![]).len(), 0);
}

#[test]
fn additions_are_gathered_by_register_and_puzzle() {
    let arch = architecture(&[(4, &[4]), (6, &[6])]);
    let other = architecture(&[(5, &[5])]);
    let regs = catalogue(&arch, &other);
    let code = vec![
        add_theoretical(0, 1, 0, 0),
        add_puzzle(0, &arch, &[(0, 1)], 1),
        add_theoretical(1, 5, 0, 2),
        add_puzzle(1, &other, &[(0, 2)], 3),
        add_puzzle(0, &arch, &[(1, 2), (0, 3), (1, 4)], 4),
        add_theoretical(0, 10, 7, 5),
        label(LOOP, 0, 6),
        add_theoretical(0, u64::MAX, 0, 7),
        add_theoretical(0, 1, 1, 8),
        add_puzzle(0, &arch, &[(0, u64::MAX - 1)], 9),
        add_puzzle(0, &arch, &[(1, 1), (0, 2)], 10),
        halt(11),
        add_theoretical(3, 3, 2, 12),
    ];
    let mut pass = CoalesceAdds::new();
    let mut out = Vec::new();
    for part in code {
        out.extend(pass.rewrite(part, &regs));
    }
    out.extend(pass.eof(&regs));
    assert_eq!(
        shown(&out),
        vec![
            "addt 0 11 #7 <0+1>",
            "addt 1 5 #7 <2+1>",
            "addp 0 [0+4,1+6] #7 <1+1>",
            "addp 1 [0+2] #7 <3+1>",
            "10@Some(0): <6+1>",
            // the sums do not fit: what was gathered goes out first
            "addt 0 18446744073709551615 #1 <7+1>",
            "addt 0 1 #0 <8+1>",
            "addp 0 [0+18446744073709551614] #0 <9+1>",
            "addp 0 [1+1,0+2] #0 <10+1>",
            "halt #0 <11+1>",
            "addt 3 3 #2 <12+1>",
        ]
    );
    let mut effect = amts(&[(0, 1), (2, 2)]);
    assert!(CoalesceAdds::merge_effects(&mut effect, &amts(&[(2, 5), (1, 1), (1, 1)])));
    assert_eq!(effect, amts(&[(0, 1), (2, 7), (1, 2)]));
    assert!(!CoalesceAdds::merge_effects(&mut effect, &amts(&[(3, 1), (2, u64::MAX)])));
    assert_eq!(effect, amts(&[(0, 1), (2, 7), (1, 2)]));
}

#[test]
fn repeat_until_folding() {
    // loop: add A 1; solved-goto A loop  -- after the jump was turned around:
    //
    // loop:
    //     solved-goto A exit
    //     add A 1
    //     goto loop
    // exit:
    let arch = architecture(&[(4, &[4]), (6, &[6])]);
    let other = architecture(&[(5, &[5])]);
    let regs = catalogue(&arch, &other);
    let mut window = VecDeque::from(vec![
        label(LOOP, 0, 0),
        solved_goto(reg(A), EXIT, 2, 1),
        add_puzzle(0, &arch, &[(0, 1)], 3),
        goto(LOOP, 0, 5),
        label(EXIT, 2, 6),
    ]);
    assert_eq!(RepeatUntil1::max_window_size(), 5);
    RepeatUntil1::try_match(&mut window, &regs);
    assert_eq!(
        shown(&window),
        vec![
            "10@Some(0): <0+1>",
            "repeat 0 [0+1] until 0%None #2 <1+5>",
            "goto 11@2 #2 <1+5>",
            "11@Some(2): <6+1>",
        ]
    );
    // then the jump to the label that follows goes away
    window.pop_front();
    window.pop_front();
    RemoveUselessJumps::try_match(&mut window, &regs);
    assert_eq!(shown(&window), vec!["11@Some(2): <6+1>"]);
}

#[test]
fn the_first_recognizer_wants_the_register_on_the_puzzle() {
    let arch = architecture(&[(4, &[4]), (6, &[6])]);
    let other = architecture(&[(5, &[5])]);
    let regs = catalogue(&arch, &other);
    let unchanged = |parts: Vec<Component>| {
        let before = shown(&parts);
        let mut window = VecDeque::from(parts);
        RepeatUntil1::try_match(&mut window, &regs);
        assert_eq!(shown(&window), before);
    };
    let good = |register: RegisterReference, back: Component| {
        vec![label(LOOP, 0, 0), solved_goto(register, EXIT, 2, 1), add_puzzle(0, &arch, &[(0, 1)], 3), back]
    };
    unchanged(good(reg(T), goto(LOOP, 0, 5)));
    unchanged(good(reg(C), goto(LOOP, 0, 5)));
    unchanged(good(reg(Symbol(99)), goto(LOOP, 0, 5)));
    unchanged(good(reg(A), goto(EXIT, 0, 5)));
    unchanged(good(reg(A), goto(LOOP, 1, 5)));
    unchanged(good(reg(A), halt(5)));
    unchanged(vec![label(LOOP, 0, 0), solved_goto(reg(A), EXIT, 2, 1), add_puzzle(0, &arch, &[(0, 1)], 3)]);
    unchanged(vec![halt(0), solved_goto(reg(A), EXIT, 2, 1), add_puzzle(0, &arch, &[(0, 1)], 3), goto(LOOP, 0, 5)]);
    let mut window = VecDeque::from(good(reg_mod(B, 3), goto(LOOP, 0, 5)));
    RepeatUntil1::try_match(&mut window, &regs);
    assert_eq!(
        shown(&window),
        vec!["10@Some(0): <0+1>", "repeat 0 [0+1] until 1%Some(3) #2 <1+5>", "goto 11@2 #2 <1+5>"]
    );
}

#[test]
fn the_second_recognizer_keeps_the_first_additions() {
    let arch = architecture(&[(4, &[4]), (6, &[6])]);
    let other = architecture(&[(5, &[5])]);
    let regs = catalogue(&arch, &other);
    assert_eq!(RepeatUntil2::max_window_size(), 6);
    let mut window = VecDeque::from(vec![
        label(LOOP, 0, 0),
        add_puzzle(0, &arch, &[(0, 1), (1, 2)], 1),
        solved_goto(reg(B), EXIT, 2, 3),
        goto(LOOP, 0, 5),
        halt(7),
    ]);
    RepeatUntil2::try_match(&mut window, &regs);
    assert_eq!(
        shown(&window),
        vec![
            "10@Some(0): <0+1>",
            "addp 0 [0+1,1+2] #0 <1+1>",
            "repeat 0 [0+1,1+2] until 1%None #2 <3+3>",
            "goto 11@2 #2 <3+3>",
            "halt #0 <7+1>",
        ]
    );
    let mut window = VecDeque::from(vec![
        label(LOOP, 0, 0),
        add_puzzle(0, &arch, &[(0, 1)], 1),
        label(INNER, 0, 2),
        solved_goto(reg(A), EXIT, 2, 3),
        goto(LOOP, 0, 5),
    ]);
    RepeatUntil2::try_match(&mut window, &regs);
    assert_eq!(
        shown(&window),
        vec![
            "10@Some(0): <0+1>",
            "addp 0 [0+1] #0 <1+1>",
            "12@Some(0): <2+1>",
            "repeat 0 [0+1] until 0%None #2 <3+3>",
            "goto 11@2 #2 <3+3>",
        ]
    );
    let parts = vec![
        label(LOOP, 0, 0),
        add_puzzle(1, &other, &[(0, 1)], 1),
        solved_goto(reg(A), EXIT, 2, 3),
        goto(LOOP, 0, 5),
    ];
    let before = shown(&parts);
    let mut window = VecDeque::from(parts);
    RepeatUntil2::try_match(&mut window, &regs);
    assert_eq!(shown(&window), before);
}

#[test]
fn the_third_recognizer_merges_the_additions_behind_the_jump() {
    let arch = architecture(&[(4, &[4]), (6, &[6])]);
    let other = architecture(&[(5, &[5])]);
    let regs = catalogue(&arch, &other);
    assert_eq!(RepeatUntil3::max_window_size(), 7);
    let mut window = VecDeque::from(vec![
        label(LOOP, 0, 0),
        add_puzzle(0, &arch, &[(0, 1), (1, 2)], 1),
        label(INNER, 0, 2),
        solved_goto(reg(B), EXIT, 2, 3),
        add_puzzle(0, &arch, &[(1, 3), (0, 1)], 4),
        goto(LOOP, 0, 5),
        halt(7),
    ]);
    RepeatUntil3::try_match(&mut window, &regs);
    assert_eq!(
        shown(&window),
        vec![
            "10@Some(0): <0+1>",
            "addp 0 [0+1,1+2] #0 <1+1>",
            "12@Some(0): <2+1>",
            "repeat 0 [0+2,1+5] until 1%None #0 <3+3>",
            "goto 11@2 #0 <3+3>",
            "halt #0 <7+1>",
        ]
    );
    let mut window = VecDeque::from(vec![
        label(LOOP, 4, 0),
        add_puzzle(0, &arch, &[(0, 1)], 1),
        solved_goto(reg(A), EXIT, 2, 3),
        goto(LOOP, 4, 5),
    ]);
    RepeatUntil3::try_match(&mut window, &regs);
    assert_eq!(
        shown(&window),
        vec![
            "10@Some(4): <0+1>",
            "addp 0 [0+1] #0 <1+1>",
            "repeat 0 [0+1] until 0%None #4 <3+3>",
            "goto 11@2 #4 <3+3>",
        ]
    );
    let unchanged = |parts: Vec<Component>| {
        let before = shown(&parts);
        let mut window = VecDeque::from(parts);
        RepeatUntil3::try_match(&mut window, &regs);
        assert_eq!(shown(&window), before);
    };
    // additions to another puzzle behind the jump
    unchanged(vec![
        label(LOOP, 0, 0),
        add_puzzle(0, &arch, &[(0, 1)], 1),
        solved_goto(reg(A), EXIT, 2, 3),
        add_puzzle(1, &other, &[(0, 1)], 4),
        goto(LOOP, 0, 5),
    ]);
    // a sum that does not fit
    unchanged(vec![
        label(LOOP, 0, 0),
        add_puzzle(0, &arch, &[(0, u64::MAX)], 1),
        solved_goto(reg(A), EXIT, 2, 3),
        add_puzzle(0, &arch, &[(0, 1)], 4),
        goto(LOOP, 0, 5),
    ]);
    // nothing behind the conditional jump
    unchanged(vec![label(LOOP, 0, 0), add_puzzle(0, &arch, &[(0, 1)], 1), solved_goto(reg(A), EXIT, 2, 3)]);
}

#[test]
fn loops_are_split_by_cycle() {
    // B has the order 24 with cycles of the orders 8 and 6, A the order 210
    let arch = architecture(&[(210, &[2, 3, 5, 7]), (24, &[8, 6])]);
    let other = architecture(&[(5, &[5])]);
    let regs = catalogue(&arch, &other);
    assert_eq!(VectorizeRepeatUntil::max_window_size(), 1);
    let mut window =
        VecDeque::from(vec![repeat_until(0, &arch, &[(0, 209), (1, 23)], reg(B), 3, spot(4, 2)), halt(9)]);
    VectorizeRepeatUntil::try_match(&mut window, &regs);
    // lcm(8, 23) = 184 and lcm(6, 23) = 138: the cycle of the order 6 goes first
    assert_eq!(
        shown(&window),
        vec![
            "repeat 0 [0+209,1+23] until 1%Some(6) #3 <4+2>",
            "halt #0 <9+1>",
            "repeat 0 [0+204,1+18] until 1%Some(8) #3 <4+2>",
        ]
    );
    let unchanged = |part: Component| {
        let before = show(&part);
        let mut window = VecDeque::from(vec![part]);
        VectorizeRepeatUntil::try_match(&mut window, &regs);
        assert_eq!(shown(&window), vec![before]);
    };
    // one cycle only, a theoretical register, a step that every cycle divides, no step at all
    unchanged(repeat_until(1, &other, &[(0, 1)], reg(C), 0, spot(0, 1)));
    unchanged(repeat_until(0, &arch, &[(0, 1)], reg(T), 0, spot(0, 1)));
    unchanged(repeat_until(0, &arch, &[(1, 24)], reg(B), 0, spot(0, 1)));
    unchanged(repeat_until(0, &arch, &[(0, 1)], reg(B), 0, spot(0, 1)));
    unchanged(halt(0));
    // with a modulus that is itself the order of a cycle, only its proper divisors count
    unchanged(repeat_until(0, &arch, &[(1, 1)], reg_mod(B, 6), 0, spot(0, 1)));
    let mut window = VecDeque::from(vec![repeat_until(0, &arch, &[(0, 1)], reg_mod(A, 6), 0, spot(0, 1))]);
    VectorizeRepeatUntil::try_match(&mut window, &regs);
    assert_eq!(
        shown(&window),
        vec![
            "repeat 0 [0+1] until 0%Some(2) #0 <0+1>",
            "repeat 0 [0+2] until 0%Some(3) #0 <0+1>",
        ]
    );
}

#[test]
fn loops_that_zero_every_register_solve_the_puzzle() {
    let arch = architecture(&[(210, &[2, 3, 5, 7]), (24, &[8, 6])]);
    let other = architecture(&[(5, &[5])]);
    let regs = catalogue(&arch, &other);
    let run = |code: Vec<Component>| {
        let mut pass = TransformSolve::new();
        let mut out = Vec::new();
        for part in code {
            out.extend(pass.rewrite(part, &regs));
        }
        out.extend(pass.eof(&regs));
        shown(&out)
    };
    assert_eq!(
        run(vec![
            halt(0),
            repeat_until(0, &arch, &[(0, 1)], reg(A), 1, spot(1, 1)),
            repeat_until(0, &arch, &[(1, 1)], reg(B), 2, spot(2, 3)),
            halt(9),
        ]),
        vec!["halt #0 <0+1>", "solve Puzzle(PuzzleIdx(0)) #2 <1+1>", "halt #0 <9+1>"]
    );
    // a single register is solved by its own loop
    assert_eq!(
        run(vec![repeat_until(1, &other, &[(0, 4)], reg(C), 6, spot(3, 2))]),
        vec!["solve Puzzle(PuzzleIdx(1)) #6 <3+2>"]
    );
    // loops modulo parts of the order add up to the order
    assert_eq!(
        run(vec![
            repeat_until(0, &arch, &[(0, 1)], reg(A), 1, spot(1, 1)),
            repeat_until(0, &arch, &[(1, 1)], reg_mod(B, 6), 2, spot(2, 1)),
            repeat_until(0, &arch, &[(1, 6)], reg_mod(B, 8), 3, spot(3, 1)),
        ]),
        vec!["solve Puzzle(PuzzleIdx(0)) #3 <1+2>"]
    );
    // the second loop changes the register that the first brought to zero
    assert_eq!(
        run(vec![
            repeat_until(0, &arch, &[(0, 1)], reg(A), 1, spot(1, 1)),
            repeat_until(0, &arch, &[(1, 1), (0, 1)], reg(B), 2, spot(2, 1)),
        ]),
        vec![
            "repeat 0 [0+1] until 0%None #1 <1+1>",
            "repeat 0 [1+1,0+1] until 1%None #2 <2+1>",
        ]
    );
    // another puzzle or any other part in between puts the loops out
    assert_eq!(
        run(vec![
            repeat_until(0, &arch, &[(0, 1)], reg(A), 1, spot(1, 1)),
            label(LOOP, 0, 2),
            repeat_until(0, &arch, &[(1, 1)], reg(B), 2, spot(3, 1)),
            repeat_until(1, &other, &[(0, 1)], reg_mod(C, 1), 2, spot(4, 1)),
            repeat_until(0, &arch, &[(0, 1)], reg(T), 1, spot(5, 1)),
        ])
        .len(),
        5
    );
}

#[test]
fn solve_names_the_puzzle() {
    assert_ne!(ByPuzzleType::Puzzle(PuzzleIdx(0)), ByPuzzleType::Theoretical(TheoreticalIdx(0)));
}
