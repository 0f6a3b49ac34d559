//! The passes that look at a few neighbouring instructions at a time.
//!
//! A rewriter sees the parts of the code one by one and puts out what it has
//! made of them; at the end of the code it puts out what it still holds. A
//! peephole rewriter looks at a window at the start of what is left of the
//! code and may replace a part of it.

use crate::architectures::{Architecture, CycleGeneratorSubcycle};
use crate::numbers::{checked_lcm, lcm, lcm_wide, lemma_gcd_bounds, lemma_lcm_bounds};
use crate::compiler::optimization::{
    clone_amts, code_view, found_register, item_view, ByPuzzleType, ComponentView, FoundRegister,
    GlobalRegs, OptimizingCodeComponent, OptimizingPrimitive, PrimitiveView, PuzzleIdx,
    RegisterLocation, TheoreticalIdx,
};
use crate::compiler::syntax::{BlockID, Label, LabelReference, RegisterReference};
use crate::names::Symbol;
use crate::span::{Span, WithSpan};
use std::collections::VecDeque;
use std::sync::Arc;
use vstd::prelude::*;

verus! {

/// The label, if the part is one.
pub open spec fn as_label(part: ComponentView) -> Option<Label> {
    match part {
        ComponentView::Label(label) => Some(label),
        _ => None,
    }
}

/// The target and the register, if the part is a conditional jump.
pub open spec fn as_solved_goto(part: ComponentView) -> Option<
    (WithSpan<LabelReference>, RegisterReference),
> {
    match part {
        ComponentView::Instruction(PrimitiveView::SolvedGoto { label, register }, _) => Some(
            (label, register),
        ),
        _ => None,
    }
}

/// The target, if the part is an unconditional jump.
pub open spec fn as_goto(part: ComponentView) -> Option<WithSpan<LabelReference>> {
    match part {
        ComponentView::Instruction(PrimitiveView::Goto { label }, _) => Some(label),
        _ => None,
    }
}

/// The puzzle, its architecture and the additions, if the part adds to the
/// registers of a puzzle.
pub open spec fn as_add_puzzle(part: ComponentView) -> Option<
    (PuzzleIdx, Arc<Architecture>, Seq<(usize, WithSpan<u64>)>),
> {
    match part {
        ComponentView::Instruction(PrimitiveView::AddPuzzle { puzzle, arch, amts }, _) => Some(
            (puzzle, arch, amts),
        ),
        _ => None,
    }
}

/// The target of a jump, conditional or not.
pub open spec fn jump_target(part: ComponentView) -> Option<LabelReference> {
    match part {
        ComponentView::Instruction(PrimitiveView::Goto { label }, _) => Some(label.value),
        ComponentView::Instruction(PrimitiveView::SolvedGoto { label, register: _ }, _) => Some(
            label.value,
        ),
        _ => None,
    }
}

/// Whether a jump to `target` leads to this label: the names are the same and
/// the label stands in the block that the target names.
pub open spec fn label_is_target(label: Label, target: LabelReference) -> bool {
    label.name == target.name && label.maybe_block_id == Some(target.block_id)
}

/// Whether the register of the reference belongs to the puzzle.
pub open spec fn register_on_puzzle(
    registers: Seq<(Symbol, RegisterLocation)>,
    register: RegisterReference,
    puzzle: PuzzleIdx,
) -> bool {
    found_register(registers, register) matches Some(FoundRegister::Puzzle { puzzle: found, .. })
        && found == puzzle
}

pub proof fn lemma_code_view_concat(
    a: Seq<WithSpan<OptimizingCodeComponent>>,
    b: Seq<WithSpan<OptimizingCodeComponent>>,
)
    ensures
        code_view(a + b) == code_view(a) + code_view(b),
{
    assert(code_view(a + b) =~= code_view(a) + code_view(b));
}

pub proof fn lemma_code_view_parts(code: Seq<WithSpan<OptimizingCodeComponent>>, at: int)
    requires
        0 <= at <= code.len(),
    ensures
        code_view(code.take(at)) == code_view(code).take(at),
        code_view(code.skip(at)) == code_view(code).skip(at),
{
    assert(code_view(code.take(at)) =~= code_view(code).take(at));
    assert(code_view(code.skip(at)) =~= code_view(code).skip(at));
}

fn label_matches(label: &Label, target: &LabelReference) -> (same: bool)
    ensures
        same == label_is_target(*label, *target),
{
    match label.maybe_block_id {
        Some(block) => label.name.0 == target.name.0 && block.0 == target.block_id.0,
        None => false,
    }
}

fn on_puzzle(global_regs: &GlobalRegs, register: &RegisterReference, puzzle: PuzzleIdx) -> (same: bool)
    ensures
        same == register_on_puzzle(global_regs.registers@, *register, puzzle),
{
    match global_regs.get_reg(register) {
        Some(FoundRegister::Puzzle { puzzle: found, reg_idx: _, arch: _, modulus: _ }) => found.0
            == puzzle.0,
        _ => false,
    }
}

/// Replaces `remove` parts of the window from the place `at` on by `insert`.
pub fn replace_range(
    window: &mut VecDeque<WithSpan<OptimizingCodeComponent>>,
    at: usize,
    remove: usize,
    insert: Vec<WithSpan<OptimizingCodeComponent>>,
)
    requires
        at + remove <= old(window)@.len(),
    ensures
        final(window)@ == old(window)@.take(at as int) + insert@ + old(window)@.skip(at + remove),
{
    let mut removed: usize = 0;
    while removed < remove
        invariant
            removed <= remove,
            at + remove <= old(window)@.len(),
            window@ == old(window)@.take(at as int) + old(window)@.skip(at + removed),
        decreases remove - removed,
    {
        let ghost before = window@;
        let taken = window.remove(at);
        assert(window@ =~= old(window)@.take(at as int) + old(window)@.skip(at + removed + 1));
        removed += 1;
    }
    let mut insert = insert;
    let ghost all = insert@;
    while insert.len() > 0
        invariant
            insert@.len() <= all.len(),
            insert@ == all.take(insert@.len() as int),
            at + remove <= old(window)@.len(),
            window@ == old(window)@.take(at as int) + all.skip(insert@.len() as int) + old(window)@.skip(
                at + remove,
            ),
        decreases insert@.len(),
    {
        let ghost left = insert@.len();
        let item = insert.pop().unwrap();
        window.insert(at, item);
        assert(window@ =~= old(window)@.take(at as int) + all.skip(left - 1) + old(window)@.skip(
            at + remove,
        ));
        assert(insert@ =~= all.take(left - 1));
    }
    assert(all.skip(0) =~= all);
}

/// Takes away the instructions that cannot be reached: what follows an
/// unconditional jump or a halt, up to the next label.
#[derive(Debug)]
pub struct RemoveUnreachableCode {
    diverging: Option<WithSpan<OptimizingCodeComponent>>,
}

/// Whether control never passes beyond the part.
pub open spec fn is_diverging(part: ComponentView) -> bool {
    match part {
        ComponentView::Instruction(PrimitiveView::Goto { .. }, _) => true,
        ComponentView::Instruction(PrimitiveView::Halt { .. }, _) => true,
        _ => false,
    }
}

/// What the pass holds and what it puts out, once it has seen one more part.
pub open spec fn unreachable_step(
    held: Option<WithSpan<ComponentView>>,
    item: WithSpan<ComponentView>,
) -> (Option<WithSpan<ComponentView>>, Seq<WithSpan<ComponentView>>) {
    match held {
        Some(jump) => if as_label(item.value) is Some {
            (None, seq![jump, item])
        } else {
            (Some(jump), Seq::empty())
        },
        None => if is_diverging(item.value) {
            (Some(item), Seq::empty())
        } else {
            (None, seq![item])
        },
    }
}

impl RemoveUnreachableCode {
    /// The jump or halt that the pass holds back.
    pub closed spec fn view(&self) -> Option<WithSpan<ComponentView>> {
        match self.diverging {
            Some(item) => Some(item_view(item)),
            None => None,
        }
    }

    pub fn new() -> (pass: Self)
        ensures
            pass@ is None,
    {
        RemoveUnreachableCode { diverging: None }
    }

    /// Takes the next part of the code.
    pub fn rewrite(&mut self, component: WithSpan<OptimizingCodeComponent>, global_regs: &GlobalRegs) -> (out:
        Vec<WithSpan<OptimizingCodeComponent>>)
        ensures
            (final(self)@, code_view(out@)) == unreachable_step(old(self)@, item_view(component)),
    {
        let mut out: Vec<WithSpan<OptimizingCodeComponent>> = Vec::new();
        let mut held: Option<WithSpan<OptimizingCodeComponent>> = None;
        std::mem::swap(&mut self.diverging, &mut held);
        match held {
            Some(jump) => {
                let is_label = match &component.value {
                    OptimizingCodeComponent::Label(_) => true,
                    _ => false,
                };
                if is_label {
                    out.push(jump);
                    out.push(component);
                    assert(code_view(out@) =~= seq![item_view(jump), item_view(component)]);
                } else {
                    self.diverging = Some(jump);
                    assert(code_view(out@) =~= Seq::<WithSpan<ComponentView>>::empty());
                }
            },
            None => {
                let diverges = match &component.value {
                    OptimizingCodeComponent::Instruction(OptimizingPrimitive::Goto { .. }, _) => true,
                    OptimizingCodeComponent::Instruction(OptimizingPrimitive::Halt { .. }, _) => true,
                    _ => false,
                };
                if diverges {
                    self.diverging = Some(component);
                    assert(code_view(out@) =~= Seq::<WithSpan<ComponentView>>::empty());
                } else {
                    out.push(component);
                    assert(code_view(out@) =~= seq![item_view(component)]);
                }
            },
        }
        out
    }

    /// Puts out what the pass still holds at the end of the code.
    pub fn eof(self, global_regs: &GlobalRegs) -> (out: Vec<WithSpan<OptimizingCodeComponent>>)
        ensures
            code_view(out@) == match self@ {
                Some(jump) => seq![jump],
                None => Seq::empty(),
            },
    {
        let mut out: Vec<WithSpan<OptimizingCodeComponent>> = Vec::new();
        match self.diverging {
            Some(jump) => {
                out.push(jump);
                assert(code_view(out@) =~= seq![item_view(jump)]);
            },
            None => {
                assert(code_view(out@) =~= Seq::<WithSpan<ComponentView>>::empty());
            },
        }
        out
    }
}

/// Takes away a jump that leads to the label right behind it.
#[derive(Debug)]
pub struct RemoveUselessJumps;

/// Whether the window starts with a jump to the label that follows it.
pub open spec fn useless_jump(window: Seq<WithSpan<ComponentView>>) -> bool {
    &&& window.len() >= 2
    &&& as_label(window[1].value) matches Some(label)
    &&& jump_target(window[0].value) matches Some(target)
    &&& label_is_target(label, target)
}

impl RemoveUselessJumps {
    /// The number of parts that the pass looks at.
    pub fn max_window_size() -> (size: usize)
        ensures
            size == 2,
    {
        2
    }

    /// Drops the first part of the window if it is a jump to the label that
    /// follows it.
    pub fn try_match(window: &mut VecDeque<WithSpan<OptimizingCodeComponent>>, global_regs: &GlobalRegs)
        ensures
            code_view(final(window)@) == if useless_jump(code_view(old(window)@)) {
                code_view(old(window)@).drop_first()
            } else {
                code_view(old(window)@)
            },
    {
        if window.len() < 2 {
            return ;
        }
        let hit = match &window[1].value {
            OptimizingCodeComponent::Label(label) => match &window[0].value {
                OptimizingCodeComponent::Instruction(
                    OptimizingPrimitive::SolvedGoto { label: jumps_to, .. },
                    _,
                ) => label_matches(label, &jumps_to.value),
                OptimizingCodeComponent::Instruction(OptimizingPrimitive::Goto { label: jumps_to }, _) => label_matches(
                    label,
                    &jumps_to.value,
                ),
                _ => false,
            },
            _ => false,
        };
        if hit {
            window.pop_front();
            proof {
                lemma_code_view_parts(old(window)@, 1);
                assert(old(window)@.skip(1) =~= old(window)@.subrange(1, old(window)@.len() as int));
                assert(code_view(old(window)@).skip(1) =~= code_view(old(window)@).drop_first());
            }
        }
    }
}


/// The place of the first addition to the register `reg` from `from` on.
pub open spec fn first_with_register(effect: Seq<(usize, WithSpan<u64>)>, reg: usize, from: int) -> Option<
    int,
>
    decreases effect.len() - from,
{
    if from < 0 || from >= effect.len() {
        None
    } else if effect[from].0 == reg {
        Some(from)
    } else {
        first_with_register(effect, reg, from + 1)
    }
}

/// The additions with one more: it is added to the first addition to the same
/// register, or stands at the end as a new one. There is no result if the sum
/// does not fit.
pub open spec fn merge_one(effect: Seq<(usize, WithSpan<u64>)>, new: (usize, WithSpan<u64>)) -> Option<
    Seq<(usize, WithSpan<u64>)>,
> {
    match first_with_register(effect, new.0, 0) {
        Some(at) => if effect[at].1.value + new.1.value <= u64::MAX {
            Some(
                effect.update(
                    at,
                    (
                        effect[at].0,
                        WithSpan {
                            value: (effect[at].1.value + new.1.value) as u64,
                            span: effect[at].1.span,
                        },
                    ),
                ),
            )
        } else {
            None
        },
        None => Some(effect.push(new)),
    }
}

/// The additions `first` with the first `upto` additions of `second` merged
/// in, one after the other.
pub open spec fn merge_effects_upto(
    first: Seq<(usize, WithSpan<u64>)>,
    second: Seq<(usize, WithSpan<u64>)>,
    upto: int,
) -> Option<Seq<(usize, WithSpan<u64>)>>
    decreases upto,
{
    if upto <= 0 {
        Some(first)
    } else {
        match merge_effects_upto(first, second, upto - 1) {
            Some(merged) => merge_one(merged, second[upto - 1]),
            None => None,
        }
    }
}

/// Two lists of additions as one, with one addition for each register.
pub open spec fn merged_effects(first: Seq<(usize, WithSpan<u64>)>, second: Seq<(usize, WithSpan<u64>)>) -> Option<
    Seq<(usize, WithSpan<u64>)>,
> {
    merge_effects_upto(first, second, second.len() as int)
}

proof fn lemma_merge_fails(
    first: Seq<(usize, WithSpan<u64>)>,
    second: Seq<(usize, WithSpan<u64>)>,
    at: int,
    upto: int,
)
    requires
        0 <= at <= upto,
        merge_effects_upto(first, second, at) is None,
    ensures
        merge_effects_upto(first, second, upto) is None,
    decreases upto - at,
{
    if at < upto {
        lemma_merge_fails(first, second, at, upto - 1);
    }
}

fn find_register_index(effect: &Vec<(usize, WithSpan<u64>)>, reg: usize) -> (found: Option<usize>)
    ensures
        match found {
            Some(at) => first_with_register(effect@, reg, 0) == Some(at as int) && at < effect@.len()
                && effect@[at as int].0 == reg,
            None => first_with_register(effect@, reg, 0) is None,
        },
{
    let mut i: usize = 0;
    while i < effect.len()
        invariant
            i <= effect@.len(),
            first_with_register(effect@, reg, 0) == first_with_register(effect@, reg, i as int),
        decreases effect@.len() - i,
    {
        if effect[i].0 == reg {
            return Some(i);
        }
        i += 1;
    }
    None
}

/// Two lists of additions as one, if the sums fit.
pub fn merge_effect_lists(first: &Vec<(usize, WithSpan<u64>)>, second: &Vec<(usize, WithSpan<u64>)>) -> (merged:
    Option<Vec<(usize, WithSpan<u64>)>>)
    ensures
        match merged {
            Some(list) => merged_effects(first@, second@) == Some(list@),
            None => merged_effects(first@, second@) is None,
        },
{
    let mut merged = clone_amts(first);
    let mut i: usize = 0;
    while i < second.len()
        invariant
            i <= second@.len(),
            merge_effects_upto(first@, second@, i as int) == Some(merged@),
        decreases second@.len() - i,
    {
        let new = second[i];
        match find_register_index(&merged, new.0) {
            Some(at) => {
                let old = merged[at];
                if old.1.value > u64::MAX - new.1.value {
                    proof {
                        lemma_merge_fails(first@, second@, i as int + 1, second@.len() as int);
                    }
                    return None;
                }
                merged[at] = (old.0, WithSpan { value: old.1.value + new.1.value, span: old.1.span });
            },
            None => {
                merged.push(new);
            },
        }
        i += 1;
    }
    Some(merged)
}

/// The instruction that repeats the additions until the register is zero, and
/// the jump that follows it.
pub open spec fn repeat_until_pair(
    puzzle: PuzzleIdx,
    arch: Arc<Architecture>,
    amts: Seq<(usize, WithSpan<u64>)>,
    register: RegisterReference,
    target: WithSpan<LabelReference>,
    block: BlockID,
    span: Span,
) -> Seq<WithSpan<ComponentView>> {
    seq![
        WithSpan {
            value: ComponentView::Instruction(
                PrimitiveView::RepeatUntil { puzzle, arch, amts, register },
                block,
            ),
            span,
        },
        WithSpan { value: ComponentView::Instruction(PrimitiveView::Goto { label: target }, block), span },
    ]
}

fn make_pair(
    puzzle: PuzzleIdx,
    arch: Arc<Architecture>,
    amts: Vec<(usize, WithSpan<u64>)>,
    register: RegisterReference,
    target: WithSpan<LabelReference>,
    block: BlockID,
    span: Span,
) -> (pair: Vec<WithSpan<OptimizingCodeComponent>>)
    ensures
        code_view(pair@) == repeat_until_pair(puzzle, arch, amts@, register, target, block, span),
{
    let mut pair: Vec<WithSpan<OptimizingCodeComponent>> = Vec::new();
    pair.push(
        WithSpan {
            value: OptimizingCodeComponent::Instruction(
                OptimizingPrimitive::RepeatUntil { puzzle, arch, amts, register },
                block,
            ),
            span,
        },
    );
    pair.push(
        WithSpan {
            value: OptimizingCodeComponent::Instruction(OptimizingPrimitive::Goto { label: target }, block),
            span,
        },
    );
    assert(code_view(pair@) =~= repeat_until_pair(puzzle, arch, amts@, register, target, block, span));
    pair
}

/// Replaces
///
/// ```text
/// spot1:
///     solved-goto <register> wherever
///     <additions>
///     goto spot1
/// ```
///
/// by
///
/// ```text
/// spot1:
///     repeat until <register> solved <additions>
///     goto wherever
/// ```
#[derive(Debug)]
pub struct RepeatUntil1;

/// What `RepeatUntil1` makes of a window.
pub open spec fn repeat_until_1(
    window: Seq<WithSpan<ComponentView>>,
    registers: Seq<(Symbol, RegisterLocation)>,
) -> Seq<WithSpan<ComponentView>> {
    if window.len() < 4 {
        window
    } else {
        match (
            as_label(window[0].value),
            as_solved_goto(window[1].value),
            as_add_puzzle(window[2].value),
            as_goto(window[3].value),
        ) {
            (Some(spot1), Some((spot2, register)), Some((puzzle, arch, amts)), Some(back)) => {
                if register_on_puzzle(registers, register, puzzle) && label_is_target(spot1, back.value) {
                    let span = window[1].span.merged(window[2].span).merged(window[3].span);
                    window.take(1) + repeat_until_pair(
                        puzzle,
                        arch,
                        amts,
                        register,
                        spot2,
                        spot2.value.block_id,
                        span,
                    ) + window.skip(4)
                } else {
                    window
                }
            },
            _ => window,
        }
    }
}

impl RepeatUntil1 {
    /// The number of parts that the pass looks at.
    pub fn max_window_size() -> (size: usize)
        ensures
            size == 5,
    {
        5
    }

    /// Rewrites the start of the window if it is a loop of this shape.
    pub fn try_match(window: &mut VecDeque<WithSpan<OptimizingCodeComponent>>, global_regs: &GlobalRegs)
        ensures
            code_view(final(window)@) == repeat_until_1(code_view(old(window)@), global_regs.registers@),
    {
        if window.len() < 4 {
            return ;
        }
        let spot1 = match &window[0].value {
            OptimizingCodeComponent::Label(spot1) => spot1,
            _ => {
                return ;
            },
        };
        let (spot2, register) = match &window[1].value {
            OptimizingCodeComponent::Instruction(OptimizingPrimitive::SolvedGoto { label, register }, _) => (
                *label,
                *register,
            ),
            _ => {
                return ;
            },
        };
        let (puzzle, arch, amts) = match &window[2].value {
            OptimizingCodeComponent::Instruction(OptimizingPrimitive::AddPuzzle { puzzle, arch, amts }, _) => (
                *puzzle,
                arch,
                amts,
            ),
            _ => {
                return ;
            },
        };
        if !on_puzzle(global_regs, &register, puzzle) {
            return ;
        }
        let back = match &window[3].value {
            OptimizingCodeComponent::Instruction(OptimizingPrimitive::Goto { label }, _) => *label,
            _ => {
                return ;
            },
        };
        if !label_matches(spot1, &back.value) {
            return ;
        }
        let span = window[1].span.merge(window[2].span).merge(window[3].span);
        let pair = make_pair(
            puzzle,
            arch.clone(),
            clone_amts(amts),
            register,
            spot2,
            spot2.value.block_id,
            span,
        );
        replace_range(window, 1, 3, pair);
        proof {
            lemma_code_view_concat(old(window)@.take(1) + pair@, old(window)@.skip(4));
            lemma_code_view_concat(old(window)@.take(1), pair@);
            lemma_code_view_parts(old(window)@, 1);
            lemma_code_view_parts(old(window)@, 4);
        }
    }
}

/// Replaces
///
/// ```text
/// spot1:
///     <additions>
/// <optional label>:
///     solved-goto <register> wherever
///     goto spot1
/// ```
///
/// by
///
/// ```text
/// spot1:
///     <additions>
/// <optional label>:
///     repeat until <register> solved <additions>
///     goto wherever
/// ```
#[derive(Debug)]
pub struct RepeatUntil2;

/// Whether the window has a label at its third place.
pub open spec fn has_inner_label(window: Seq<WithSpan<ComponentView>>) -> bool {
    window.len() > 2 && as_label(window[2].value) is Some
}

/// What `RepeatUntil2` makes of a window.
pub open spec fn repeat_until_2(
    window: Seq<WithSpan<ComponentView>>,
    registers: Seq<(Symbol, RegisterLocation)>,
) -> Seq<WithSpan<ComponentView>> {
    let at = if has_inner_label(window) {
        3int
    } else {
        2int
    };
    if window.len() < at + 2 {
        window
    } else {
        match (
            as_label(window[0].value),
            as_add_puzzle(window[1].value),
            as_solved_goto(window[at].value),
            as_goto(window[at + 1].value),
        ) {
            (Some(spot1), Some((puzzle, arch, amts)), Some((spot3, register)), Some(back)) => {
                if register_on_puzzle(registers, register, puzzle) && label_is_target(spot1, back.value) {
                    let span = window[at].span.merged(window[at + 1].span);
                    window.take(at) + repeat_until_pair(
                        puzzle,
                        arch,
                        amts,
                        register,
                        spot3,
                        spot3.value.block_id,
                        span,
                    ) + window.skip(at + 2)
                } else {
                    window
                }
            },
            _ => window,
        }
    }
}

impl RepeatUntil2 {
    /// The number of parts that the pass looks at.
    pub fn max_window_size() -> (size: usize)
        ensures
            size == 6,
    {
        6
    }

    /// Rewrites the start of the window if it is a loop of this shape.
    pub fn try_match(window: &mut VecDeque<WithSpan<OptimizingCodeComponent>>, global_regs: &GlobalRegs)
        ensures
            code_view(final(window)@) == repeat_until_2(code_view(old(window)@), global_regs.registers@),
    {
        if window.len() < 4 {
            return ;
        }
        let inner_label = match &window[2].value {
            OptimizingCodeComponent::Label(_) => true,
            _ => false,
        };
        let at: usize = if inner_label {
            3
        } else {
            2
        };
        if window.len() < at + 2 {
            return ;
        }
        let spot1 = match &window[0].value {
            OptimizingCodeComponent::Label(spot1) => spot1,
            _ => {
                return ;
            },
        };
        let (puzzle, arch, amts) = match &window[1].value {
            OptimizingCodeComponent::Instruction(OptimizingPrimitive::AddPuzzle { puzzle, arch, amts }, _) => (
                *puzzle,
                arch,
                amts,
            ),
            _ => {
                return ;
            },
        };
        let (spot3, register) = match &window[at].value {
            OptimizingCodeComponent::Instruction(OptimizingPrimitive::SolvedGoto { label, register }, _) => (
                *label,
                *register,
            ),
            _ => {
                return ;
            },
        };
        if !on_puzzle(global_regs, &register, puzzle) {
            return ;
        }
        let back = match &window[at + 1].value {
            OptimizingCodeComponent::Instruction(OptimizingPrimitive::Goto { label }, _) => *label,
            _ => {
                return ;
            },
        };
        if !label_matches(spot1, &back.value) {
            return ;
        }
        let span = window[at].span.merge(window[at + 1].span);
        let pair = make_pair(
            puzzle,
            arch.clone(),
            clone_amts(amts),
            register,
            spot3,
            spot3.value.block_id,
            span,
        );
        replace_range(window, at, 2, pair);
        proof {
            lemma_code_view_concat(old(window)@.take(at as int) + pair@, old(window)@.skip(at + 2));
            lemma_code_view_concat(old(window)@.take(at as int), pair@);
            lemma_code_view_parts(old(window)@, at as int);
            lemma_code_view_parts(old(window)@, at + 2);
        }
    }
}

/// Replaces
///
/// ```text
/// spot1:
///     <additions>
/// <optional label>:
///     solved-goto <register> wherever
///     <optional additions>
///     goto spot1
/// ```
///
/// by
///
/// ```text
/// spot1:
///     <additions>
/// <optional label>:
///     repeat until <register> solved <optional additions> <additions>
///     goto wherever
/// ```
#[derive(Debug)]
pub struct RepeatUntil3;

/// What `RepeatUntil3` makes of a window.
pub open spec fn repeat_until_3(
    window: Seq<WithSpan<ComponentView>>,
    registers: Seq<(Symbol, RegisterLocation)>,
) -> Seq<WithSpan<ComponentView>> {
    let at = if has_inner_label(window) {
        3int
    } else {
        2int
    };
    if window.len() < at + 2 {
        window
    } else {
        let second = as_add_puzzle(window[at + 1].value);
        let goto_at = if second is Some {
            at + 2
        } else {
            at + 1
        };
        if window.len() <= goto_at {
            window
        } else {
            match (
                as_label(window[0].value),
                as_add_puzzle(window[1].value),
                as_solved_goto(window[at].value),
                as_goto(window[goto_at].value),
            ) {
                (Some(spot1), Some((puzzle, arch, amts)), Some((spot2, register)), Some(back)) => {
                    let all_amts = match second {
                        Some((_, _, more)) => merged_effects(amts, more),
                        None => Some(amts),
                    };
                    let same_puzzle = match second {
                        Some((other, _, _)) => other == puzzle,
                        None => true,
                    };
                    let span = match second {
                        Some(_) => window[at].span.merged(window[at + 1].span).merged(
                            window[at + 2].span,
                        ),
                        None => window[at].span.merged(window[at + 1].span),
                    };
                    if register_on_puzzle(registers, register, puzzle) && same_puzzle && label_is_target(
                        spot1,
                        back.value,
                    ) && all_amts is Some {
                        window.take(at) + repeat_until_pair(
                            puzzle,
                            arch,
                            all_amts.unwrap(),
                            register,
                            spot2,
                            back.value.block_id,
                            span,
                        ) + window.skip(goto_at + 1)
                    } else {
                        window
                    }
                },
                _ => window,
            }
        }
    }
}

impl RepeatUntil3 {
    /// The number of parts that the pass looks at.
    pub fn max_window_size() -> (size: usize)
        ensures
            size == 7,
    {
        7
    }

    /// Rewrites the start of the window if it is a loop of this shape. The
    /// additions behind the conditional jump are merged into those before it;
    /// the window stays as it is if a sum does not fit.
    pub fn try_match(window: &mut VecDeque<WithSpan<OptimizingCodeComponent>>, global_regs: &GlobalRegs)
        ensures
            code_view(final(window)@) == repeat_until_3(code_view(old(window)@), global_regs.registers@),
    {
        if window.len() < 4 {
            return ;
        }
        let inner_label = match &window[2].value {
            OptimizingCodeComponent::Label(_) => true,
            _ => false,
        };
        let at: usize = if inner_label {
            3
        } else {
            2
        };
        if window.len() < at + 2 {
            return ;
        }
        let spot1 = match &window[0].value {
            OptimizingCodeComponent::Label(spot1) => spot1,
            _ => {
                return ;
            },
        };
        let (puzzle, arch, amts) = match &window[1].value {
            OptimizingCodeComponent::Instruction(OptimizingPrimitive::AddPuzzle { puzzle, arch, amts }, _) => (
                *puzzle,
                arch,
                amts,
            ),
            _ => {
                return ;
            },
        };
        let (spot2, register) = match &window[at].value {
            OptimizingCodeComponent::Instruction(OptimizingPrimitive::SolvedGoto { label, register }, _) => (
                *label,
                *register,
            ),
            _ => {
                return ;
            },
        };
        if !on_puzzle(global_regs, &register, puzzle) {
            return ;
        }
        let second = match &window[at + 1].value {
            OptimizingCodeComponent::Instruction(
                OptimizingPrimitive::AddPuzzle { puzzle: other, arch: _, amts: more },
                _,
            ) => {
                if other.0 != puzzle.0 {
                    return ;
                }
                Some(more)
            },
            _ => None,
        };
        let goto_at: usize = if second.is_some() {
            at + 2
        } else {
            at + 1
        };
        if window.len() <= goto_at {
            return ;
        }
        let back = match &window[goto_at].value {
            OptimizingCodeComponent::Instruction(OptimizingPrimitive::Goto { label }, _) => *label,
            _ => {
                return ;
            },
        };
        if !label_matches(spot1, &back.value) {
            return ;
        }
        let all_amts = match second {
            Some(more) => match merge_effect_lists(amts, more) {
                Some(merged) => merged,
                None => {
                    return ;
                },
            },
            None => clone_amts(amts),
        };
        let span = if second.is_some() {
            window[at].span.merge(window[at + 1].span).merge(window[at + 2].span)
        } else {
            window[at].span.merge(window[at + 1].span)
        };
        let pair = make_pair(puzzle, arch.clone(), all_amts, register, spot2, back.value.block_id, span);
        replace_range(window, at, goto_at + 1 - at, pair);
        proof {
            lemma_code_view_concat(old(window)@.take(at as int) + pair@, old(window)@.skip(goto_at + 1));
            lemma_code_view_concat(old(window)@.take(at as int), pair@);
            lemma_code_view_parts(old(window)@, at as int);
            lemma_code_view_parts(old(window)@, goto_at + 1);
        }
    }
}


/// Splits a loop that runs until a register is zero into one that runs until
/// one of the register's cycles is, and one that goes on in steps that leave
/// that cycle alone. So
///
/// ```text
/// repeat until B solved <A - 1, B - 1>
/// ```
///
/// on a register `B` of order 24 with cycles of the orders 8 and 6 becomes
///
/// ```text
/// repeat until B%6 solved <A - 1, B - 1>
/// repeat until B%8 solved <A - 6, B - 6>
/// ```
#[derive(Debug)]
pub struct VectorizeRepeatUntil;

/// What is added to the register `reg`: the first addition to it.
pub open spec fn amount_for(amts: Seq<(usize, WithSpan<u64>)>, reg: usize) -> Option<u64> {
    match first_with_register(amts, reg, 0) {
        Some(at) => Some(amts[at].1.value),
        None => None,
    }
}

/// Whether a cycle of the order `order` can be split off: it divides the
/// modulus, is not the modulus itself, and does not divide the step.
pub open spec fn is_candidate(order: u64, modulus: u64, amt: u64) -> bool {
    order != 0 && modulus != order && modulus % order == 0 && amt % order != 0
}

/// The place of the cycle to split off among the first `upto` cycles: the
/// first of those whose order has the smallest common multiple with the step.
pub open spec fn best_cycle(cycles: Seq<CycleGeneratorSubcycle>, modulus: u64, amt: u64, upto: int) -> Option<
    int,
>
    decreases upto,
{
    if upto <= 0 {
        None
    } else {
        let before = best_cycle(cycles, modulus, amt, upto - 1);
        let order = cycles[upto - 1].chromatic_order;
        if is_candidate(order, modulus, amt) && (before matches Some(best) ==> lcm(
            order as nat,
            amt as nat,
        ) < lcm(cycles[best].chromatic_order as nat, amt as nat)) {
            Some(upto - 1)
        } else {
            before
        }
    }
}

/// The least common multiple of the orders, among the first `upto` cycles,
/// that divide the modulus but not the order that is split off.
pub open spec fn rest_modulus(cycles: Seq<CycleGeneratorSubcycle>, modulus: u64, split: u64, upto: int) -> nat
    decreases upto,
{
    if upto <= 0 {
        1
    } else {
        let before = rest_modulus(cycles, modulus, split, upto - 1);
        let order = cycles[upto - 1].chromatic_order;
        if order != 0 && modulus % order == 0 && split % order != 0 {
            lcm(before, order as nat)
        } else {
            before
        }
    }
}

/// Whether every addition names a register of the architecture, and that
/// register has an order.
pub open spec fn amts_in_range(amts: Seq<(usize, WithSpan<u64>)>, arch: Architecture) -> bool {
    forall|i: int|
        0 <= i < amts.len() ==> (#[trigger] amts[i]).0 < arch.registers@.len()
            && arch.registers@[amts[i].0 as int].order != 0
}

/// The additions, each `scale` times as large, modulo the order of its
/// register.
pub open spec fn scaled_amts(amts: Seq<(usize, WithSpan<u64>)>, scale: nat, arch: Architecture) -> Seq<
    (usize, WithSpan<u64>),
> {
    Seq::new(
        amts.len(),
        |i: int|
            (
                amts[i].0,
                WithSpan {
                    value: ((amts[i].1.value * scale) % (arch.registers@[amts[i].0 as int].order as int)) as u64,
                    span: amts[i].1.span,
                },
            ),
    )
}

/// What `VectorizeRepeatUntil` makes of a window.
pub open spec fn vectorize(
    window: Seq<WithSpan<ComponentView>>,
    registers: Seq<(Symbol, RegisterLocation)>,
) -> Seq<WithSpan<ComponentView>> {
    if window.len() == 0 {
        window
    } else {
        match window[0].value {
            ComponentView::Instruction(PrimitiveView::RepeatUntil { puzzle, arch, amts, register }, block) => {
                match found_register(registers, register) {
                    Some(FoundRegister::Puzzle { puzzle: _, reg_idx, arch: reg_arch, modulus }) => {
                        if reg_idx >= reg_arch.registers@.len() {
                            window
                        } else {
                            let generator = reg_arch.registers@[reg_idx as int];
                            let cycles = generator.unshared_cycles@;
                            let full = match modulus {
                                Some(modulus) => modulus,
                                None => generator.order,
                            };
                            match amount_for(amts, reg_idx) {
                                None => window,
                                Some(amt) => match best_cycle(cycles, full, amt, cycles.len() as int) {
                                    None => window,
                                    Some(best) => {
                                        let split = cycles[best].chromatic_order;
                                        let scale = lcm(split as nat, amt as nat) / (amt as nat);
                                        let rest = rest_modulus(cycles, full, split, cycles.len() as int);
                                        if rest > u64::MAX || !amts_in_range(amts, *reg_arch) {
                                            window
                                        } else {
                                            seq![
                                                WithSpan {
                                                    value: ComponentView::Instruction(
                                                        PrimitiveView::RepeatUntil {
                                                            puzzle,
                                                            arch,
                                                            amts,
                                                            register: RegisterReference {
                                                                reg_name: register.reg_name,
                                                                modulus: Some(split),
                                                            },
                                                        },
                                                        block,
                                                    ),
                                                    span: window[0].span,
                                                },
                                            ] + window.skip(1) + seq![
                                                WithSpan {
                                                    value: ComponentView::Instruction(
                                                        PrimitiveView::RepeatUntil {
                                                            puzzle,
                                                            arch,
                                                            amts: scaled_amts(amts, scale, *reg_arch),
                                                            register: RegisterReference {
                                                                reg_name: register.reg_name,
                                                                modulus: Some(rest as u64),
                                                            },
                                                        },
                                                        block,
                                                    ),
                                                    span: window[0].span,
                                                },
                                            ]
                                        }
                                    },
                                },
                            }
                        }
                    },
                    _ => window,
                }
            },
            _ => window,
        }
    }
}

fn find_best_cycle(cycles: &Vec<CycleGeneratorSubcycle>, modulus: u64, amt: u64) -> (best: Option<usize>)
    ensures
        match best {
            Some(at) => best_cycle(cycles@, modulus, amt, cycles@.len() as int) == Some(at as int) && at
                < cycles@.len() && is_candidate(cycles@[at as int].chromatic_order, modulus, amt),
            None => best_cycle(cycles@, modulus, amt, cycles@.len() as int) is None,
        },
{
    let mut best: Option<usize> = None;
    let mut best_lcm: u128 = 0;
    let mut i: usize = 0;
    while i < cycles.len()
        invariant
            i <= cycles@.len(),
            match best {
                Some(at) => best_cycle(cycles@, modulus, amt, i as int) == Some(at as int) && at < i
                    && best_lcm == lcm(cycles@[at as int].chromatic_order as nat, amt as nat)
                    && is_candidate(cycles@[at as int].chromatic_order, modulus, amt),
                None => best_cycle(cycles@, modulus, amt, i as int) is None,
            },
        decreases cycles@.len() - i,
    {
        let order = cycles[i].chromatic_order;
        if order != 0 && modulus != order && modulus % order == 0 && amt % order != 0 {
            let this_lcm = lcm_wide(order, amt);
            if best.is_none() || this_lcm < best_lcm {
                best = Some(i);
                best_lcm = this_lcm;
            }
        }
        i += 1;
    }
    best
}

fn find_rest_modulus(cycles: &Vec<CycleGeneratorSubcycle>, modulus: u64, split: u64) -> (rest: Option<u64>)
    ensures
        match rest {
            Some(value) => rest_modulus(cycles@, modulus, split, cycles@.len() as int) == value,
            None => rest_modulus(cycles@, modulus, split, cycles@.len() as int) > u64::MAX,
        },
{
    let mut acc: u64 = 1;
    let mut i: usize = 0;
    while i < cycles.len()
        invariant
            i <= cycles@.len(),
            acc == rest_modulus(cycles@, modulus, split, i as int),
            acc > 0,
        decreases cycles@.len() - i,
    {
        let order = cycles[i].chromatic_order;
        if order != 0 && modulus % order == 0 && split % order != 0 {
            proof {
                lemma_lcm_bounds(acc as nat, order as nat);
            }
            match checked_lcm(acc, order) {
                Some(next) => {
                    acc = next;
                },
                None => {
                    proof {
                        lemma_rest_modulus_grows(cycles@, modulus, split, i as int + 1, cycles@.len() as int);
                    }
                    return None;
                },
            }
        }
        i += 1;
    }
    Some(acc)
}

proof fn lemma_rest_modulus_grows(
    cycles: Seq<CycleGeneratorSubcycle>,
    modulus: u64,
    split: u64,
    at: int,
    upto: int,
)
    requires
        0 <= at <= upto,
    ensures
        rest_modulus(cycles, modulus, split, at) > 0,
        rest_modulus(cycles, modulus, split, upto) >= rest_modulus(cycles, modulus, split, at),
    decreases upto,
{
    if at > 0 {
        lemma_rest_modulus_grows(cycles, modulus, split, at - 1, at - 1);
        let order = cycles[at - 1].chromatic_order;
        lemma_lcm_bounds(rest_modulus(cycles, modulus, split, at - 1), order as nat);
    }
    if at < upto {
        lemma_rest_modulus_grows(cycles, modulus, split, at, upto - 1);
        lemma_rest_modulus_grows(cycles, modulus, split, upto - 1, upto - 1);
        let order = cycles[upto - 1].chromatic_order;
        lemma_lcm_bounds(rest_modulus(cycles, modulus, split, upto - 1), order as nat);
    }
}

fn check_amts(amts: &Vec<(usize, WithSpan<u64>)>, arch: &Architecture) -> (ok: bool)
    ensures
        ok == amts_in_range(amts@, *arch),
{
    let mut i: usize = 0;
    while i < amts.len()
        invariant
            i <= amts@.len(),
            forall|j: int|
                0 <= j < i ==> (#[trigger] amts@[j]).0 < arch.registers@.len()
                    && arch.registers@[amts@[j].0 as int].order != 0,
        decreases amts@.len() - i,
    {
        if amts[i].0 >= arch.registers.len() {
            return false;
        }
        if arch.registers[amts[i].0].order == 0 {
            return false;
        }
        i += 1;
    }
    true
}

fn scale_amts(amts: &Vec<(usize, WithSpan<u64>)>, scale: u64, arch: &Architecture) -> (scaled: Vec<
    (usize, WithSpan<u64>),
>)
    requires
        amts_in_range(amts@, *arch),
    ensures
        scaled@ == scaled_amts(amts@, scale as nat, *arch),
{
    let mut scaled: Vec<(usize, WithSpan<u64>)> = Vec::new();
    let mut i: usize = 0;
    while i < amts.len()
        invariant
            i <= amts@.len(),
            amts_in_range(amts@, *arch),
            scaled@ == scaled_amts(amts@, scale as nat, *arch).take(i as int),
        decreases amts@.len() - i,
    {
        let entry = amts[i];
        let order = arch.registers[entry.0].order;
        assert((entry.1.value as u128) * (scale as u128) <= 0xffff_ffff_ffff_ffff * 0xffff_ffff_ffff_ffff)
            by (nonlinear_arith)
            requires
                entry.1.value <= 0xffff_ffff_ffff_ffff,
                scale <= 0xffff_ffff_ffff_ffff,
        ;
        let product: u128 = (entry.1.value as u128) * (scale as u128);
        let value = (product % (order as u128)) as u64;
        scaled.push((entry.0, WithSpan { value, span: entry.1.span }));
        assert(scaled@ =~= scaled_amts(amts@, scale as nat, *arch).take(i + 1));
        i += 1;
    }
    assert(scaled_amts(amts@, scale as nat, *arch).take(amts@.len() as int) =~= scaled_amts(
        amts@,
        scale as nat,
        *arch,
    ));
    scaled
}

impl VectorizeRepeatUntil {
    /// The number of parts that the pass looks at.
    pub fn max_window_size() -> (size: usize)
        ensures
            size == 1,
    {
        1
    }

    /// Splits the loop at the start of the window, if one of the cycles of its
    /// register can be split off, and puts the second loop at the end of the
    /// window.
    pub fn try_match(window: &mut VecDeque<WithSpan<OptimizingCodeComponent>>, global_regs: &GlobalRegs)
        ensures
            code_view(final(window)@) == vectorize(code_view(old(window)@), global_regs.registers@),
    {
        if window.len() == 0 {
            return ;
        }
        let (puzzle, amts, register, block) = match &window[0].value {
            OptimizingCodeComponent::Instruction(
                OptimizingPrimitive::RepeatUntil { puzzle, arch: _, amts, register },
                block,
            ) => (*puzzle, amts, *register, *block),
            _ => {
                return ;
            },
        };
        let (reg_idx, reg_arch, modulus) = match global_regs.get_reg(&register) {
            Some(FoundRegister::Puzzle { puzzle: _, reg_idx, arch, modulus }) => (reg_idx, arch, modulus),
            _ => {
                return ;
            },
        };
        if reg_idx >= reg_arch.registers.len() {
            return ;
        }
        let generator = &reg_arch.registers[reg_idx];
        let full = match modulus {
            Some(modulus) => modulus,
            None => generator.order,
        };
        let amt = match find_register_index(amts, reg_idx) {
            Some(at) => amts[at].1.value,
            None => {
                return ;
            },
        };
        let best = match find_best_cycle(&generator.unshared_cycles, full, amt) {
            Some(best) => best,
            None => {
                return ;
            },
        };
        let split = generator.unshared_cycles[best].chromatic_order;
        let rest = match find_rest_modulus(&generator.unshared_cycles, full, split) {
            Some(rest) => rest,
            None => {
                return ;
            },
        };
        if !check_amts(amts, &reg_arch) {
            return ;
        }
        assert(is_candidate(split, full, amt));
        assert(amt != 0) by {
            if amt == 0 {
                assert(0u64 % split == 0);
            }
        }
        let wide = lcm_wide(split, amt);
        proof {
            lemma_gcd_bounds(split as nat, amt as nat);
            let g = crate::numbers::gcd(split as nat, amt as nat);
            let q = (split as nat) / g;
            assert(q <= split) by (nonlinear_arith)
                requires
                    q == (split as nat) / g,
                    g > 0,
            ;
            assert((q * (amt as nat)) / (amt as nat) == q) by (nonlinear_arith)
                requires
                    amt > 0,
            ;
        }
        let scale = (wide / (amt as u128)) as u64;
        let scaled = scale_amts(amts, scale, &reg_arch);
        let first = window.pop_front().unwrap();
        let span = first.span;
        match first.value {
            OptimizingCodeComponent::Instruction(
                OptimizingPrimitive::RepeatUntil { puzzle, arch, amts, register },
                block,
            ) => {
                let next = WithSpan {
                    value: OptimizingCodeComponent::Instruction(
                        OptimizingPrimitive::RepeatUntil {
                            puzzle,
                            arch: arch.clone(),
                            amts: scaled,
                            register: RegisterReference { reg_name: register.reg_name, modulus: Some(rest) },
                        },
                        block,
                    ),
                    span,
                };
                let shortened = WithSpan {
                    value: OptimizingCodeComponent::Instruction(
                        OptimizingPrimitive::RepeatUntil {
                            puzzle,
                            arch,
                            amts,
                            register: RegisterReference { reg_name: register.reg_name, modulus: Some(split) },
                        },
                        block,
                    ),
                    span,
                };
                window.push_front(shortened);
                window.push_back(next);
                proof {
                    assert(window@ =~= seq![shortened] + old(window)@.skip(1) + seq![next]);
                    assert(code_view(window@) =~= seq![item_view(shortened)] + code_view(
                        old(window)@,
                    ).skip(1) + seq![item_view(next)]);
                }
            },
            _ => {
                assert(false);
            },
        }
    }
}


/// The additions to the registers of one puzzle that `CoalesceAdds` has
/// gathered.
#[derive(Debug)]
pub struct PuzzleEffect {
    pub puzzle: PuzzleIdx,
    pub arch: Arc<Architecture>,
    pub amts: Vec<(usize, WithSpan<u64>)>,
}

/// The gathered additions to one puzzle as a value.
pub ghost struct PuzzleEffectView {
    pub puzzle: PuzzleIdx,
    pub arch: Arc<Architecture>,
    pub amts: Seq<(usize, WithSpan<u64>)>,
}

/// Gathers additions that follow one another into one addition for each
/// theoretical register and one for each puzzle, and puts them out before the
/// next part that is no addition.
#[derive(Debug)]
pub struct CoalesceAdds {
    block_id: Option<BlockID>,
    theoreticals: Vec<WithSpan<(TheoreticalIdx, WithSpan<u64>)>>,
    puzzles: Vec<WithSpan<PuzzleEffect>>,
}

/// What `CoalesceAdds` holds, as a value.
pub ghost struct CoalesceView {
    /// The block of the last addition.
    pub block_id: Option<BlockID>,
    pub theoreticals: Seq<WithSpan<(TheoreticalIdx, WithSpan<u64>)>>,
    pub puzzles: Seq<WithSpan<PuzzleEffectView>>,
}

/// The place of the first gathered addition to a theoretical register.
pub open spec fn first_theoretical(
    gathered: Seq<WithSpan<(TheoreticalIdx, WithSpan<u64>)>>,
    theoretical: TheoreticalIdx,
    from: int,
) -> Option<int>
    decreases gathered.len() - from,
{
    if from < 0 || from >= gathered.len() {
        None
    } else if gathered[from].value.0 == theoretical {
        Some(from)
    } else {
        first_theoretical(gathered, theoretical, from + 1)
    }
}

/// The place of the first gathered addition to a puzzle.
pub open spec fn first_puzzle(gathered: Seq<WithSpan<PuzzleEffectView>>, puzzle: PuzzleIdx, from: int) -> Option<
    int,
>
    decreases gathered.len() - from,
{
    if from < 0 || from >= gathered.len() {
        None
    } else if gathered[from].value.puzzle == puzzle {
        Some(from)
    } else {
        first_puzzle(gathered, puzzle, from + 1)
    }
}

/// The gathered additions as instructions of the block of the last addition:
/// those to theoretical registers first, then those to puzzles.
pub open spec fn dumped(held: CoalesceView) -> Seq<WithSpan<ComponentView>> {
    let block = held.block_id.unwrap();
    Seq::new(
        held.theoreticals.len() + held.puzzles.len(),
        |i: int|
            if i < held.theoreticals.len() {
                WithSpan {
                    value: ComponentView::Instruction(
                        PrimitiveView::AddTheoretical {
                            theoretical: held.theoreticals[i].value.0,
                            amt: held.theoreticals[i].value.1,
                        },
                        block,
                    ),
                    span: held.theoreticals[i].span,
                }
            } else {
                let effect = held.puzzles[i - held.theoreticals.len()];
                WithSpan {
                    value: ComponentView::Instruction(
                        PrimitiveView::AddPuzzle {
                            puzzle: effect.value.puzzle,
                            arch: effect.value.arch,
                            amts: effect.value.amts,
                        },
                        block,
                    ),
                    span: effect.span,
                }
            },
    )
}

/// What `CoalesceAdds` holds and what it puts out, once it has seen one more
/// part. An addition is added to what is gathered for its register or puzzle;
/// if a sum does not fit, what is gathered is put out and the addition starts
/// anew. Any other part puts out what is gathered, and follows it.
pub open spec fn coalesce_step(held: CoalesceView, item: WithSpan<ComponentView>) -> (
    CoalesceView,
    Seq<WithSpan<ComponentView>>,
) {
    match item.value {
        ComponentView::Instruction(PrimitiveView::AddTheoretical { theoretical, amt }, block) => {
            let fresh = WithSpan { value: (theoretical, amt), span: item.span };
            match first_theoretical(held.theoreticals, theoretical, 0) {
                Some(at) => {
                    let entry = held.theoreticals[at];
                    if entry.value.1.value + amt.value <= u64::MAX {
                        (
                            CoalesceView {
                                block_id: Some(block),
                                theoreticals: held.theoreticals.update(
                                    at,
                                    WithSpan {
                                        value: (
                                            theoretical,
                                            WithSpan {
                                                value: (entry.value.1.value + amt.value) as u64,
                                                span: entry.value.1.span,
                                            },
                                        ),
                                        span: entry.span,
                                    },
                                ),
                                puzzles: held.puzzles,
                            },
                            Seq::empty(),
                        )
                    } else {
                        (
                            CoalesceView {
                                block_id: Some(block),
                                theoreticals: seq![fresh],
                                puzzles: Seq::empty(),
                            },
                            dumped(CoalesceView { block_id: Some(block), ..held }),
                        )
                    }
                },
                None => (
                    CoalesceView {
                        block_id: Some(block),
                        theoreticals: held.theoreticals.push(fresh),
                        puzzles: held.puzzles,
                    },
                    Seq::empty(),
                ),
            }
        },
        ComponentView::Instruction(PrimitiveView::AddPuzzle { puzzle, arch, amts }, block) => {
            let fresh = WithSpan { value: PuzzleEffectView { puzzle, arch, amts }, span: item.span };
            match first_puzzle(held.puzzles, puzzle, 0) {
                Some(at) => {
                    let entry = held.puzzles[at];
                    match merged_effects(entry.value.amts, amts) {
                        Some(merged) => (
                            CoalesceView {
                                block_id: Some(block),
                                theoreticals: held.theoreticals,
                                puzzles: held.puzzles.update(
                                    at,
                                    WithSpan {
                                        value: PuzzleEffectView {
                                            puzzle: entry.value.puzzle,
                                            arch: entry.value.arch,
                                            amts: merged,
                                        },
                                        span: entry.span,
                                    },
                                ),
                            },
                            Seq::empty(),
                        ),
                        None => (
                            CoalesceView {
                                block_id: Some(block),
                                theoreticals: Seq::empty(),
                                puzzles: seq![fresh],
                            },
                            dumped(CoalesceView { block_id: Some(block), ..held }),
                        ),
                    }
                },
                None => (
                    CoalesceView {
                        block_id: Some(block),
                        theoreticals: held.theoreticals,
                        puzzles: held.puzzles.push(fresh),
                    },
                    Seq::empty(),
                ),
            }
        },
        _ => (
            CoalesceView { block_id: held.block_id, theoreticals: Seq::empty(), puzzles: Seq::empty() },
            dumped(held) + seq![item],
        ),
    }
}

impl CoalesceAdds {
    /// What the pass holds.
    pub closed spec fn view(&self) -> CoalesceView {
        CoalesceView {
            block_id: self.block_id,
            theoreticals: self.theoreticals@,
            puzzles: Seq::new(
                self.puzzles@.len(),
                |i: int|
                    WithSpan {
                        value: PuzzleEffectView {
                            puzzle: self.puzzles@[i].value.puzzle,
                            arch: self.puzzles@[i].value.arch,
                            amts: self.puzzles@[i].value.amts@,
                        },
                        span: self.puzzles@[i].span,
                    },
            ),
        }
    }

    /// Where additions are gathered, the block of the last one is known.
    pub open spec fn wf(&self) -> bool {
        self@.theoreticals.len() + self@.puzzles.len() > 0 ==> self@.block_id is Some
    }

    pub fn new() -> (pass: Self)
        ensures
            pass.wf(),
            pass@ == (CoalesceView {
                block_id: None,
                theoreticals: Seq::empty(),
                puzzles: Seq::empty(),
            }),
    {
        let pass = CoalesceAdds { block_id: None, theoreticals: Vec::new(), puzzles: Vec::new() };
        assert(pass@.puzzles =~= Seq::empty());
        pass
    }

    /// Puts out what is gathered.
    fn dump_state(&mut self) -> (out: Vec<WithSpan<OptimizingCodeComponent>>)
        requires
            old(self).wf(),
        ensures
            code_view(out@) == dumped(old(self)@),
            final(self)@ == (CoalesceView {
                block_id: old(self)@.block_id,
                theoreticals: Seq::empty(),
                puzzles: Seq::empty(),
            }),
            final(self).wf(),
    {
        let mut out: Vec<WithSpan<OptimizingCodeComponent>> = Vec::new();
        let ghost held = self@;
        let block = match self.block_id {
            Some(block) => block,
            None => {
                assert(code_view(out@) =~= dumped(held));
                assert(self@.puzzles =~= Seq::empty());
                assert(self@.theoreticals =~= Seq::empty());
                return out;
            },
        };
        let mut i: usize = 0;
        while i < self.theoreticals.len()
            invariant
                i <= self.theoreticals@.len(),
                self@ == held,
                held.block_id == Some(block),
                out@.len() == i,
                forall|j: int| 0 <= j < i ==> item_view(#[trigger] out@[j]) == dumped(held)[j],
            decreases self.theoreticals@.len() - i,
        {
            let entry = self.theoreticals[i];
            out.push(
                WithSpan {
                    value: OptimizingCodeComponent::Instruction(
                        OptimizingPrimitive::AddTheoretical { theoretical: entry.value.0, amt: entry.value.1 },
                        block,
                    ),
                    span: entry.span,
                },
            );
            i += 1;
        }
        let mut k: usize = 0;
        while k < self.puzzles.len()
            invariant
                k <= self.puzzles@.len(),
                self@ == held,
                held.block_id == Some(block),
                out@.len() == held.theoreticals.len() + k,
                forall|j: int| 0 <= j < out@.len() ==> item_view(#[trigger] out@[j]) == dumped(held)[j],
            decreases self.puzzles@.len() - k,
        {
            let entry = &self.puzzles[k];
            out.push(
                WithSpan {
                    value: OptimizingCodeComponent::Instruction(
                        OptimizingPrimitive::AddPuzzle {
                            puzzle: entry.value.puzzle,
                            arch: entry.value.arch.clone(),
                            amts: clone_amts(&entry.value.amts),
                        },
                        block,
                    ),
                    span: entry.span,
                },
            );
            k += 1;
        }
        assert(code_view(out@) =~= dumped(held));
        self.theoreticals = Vec::new();
        self.puzzles = Vec::new();
        assert(self@.puzzles =~= Seq::empty());
        out
    }

    /// Merges the additions `effect2` into `effect1`: each is added to the
    /// first addition to its register, or stands at the end as a new one.
    /// Returns whether the sums fit; if not, `effect1` stays as it is.
    pub fn merge_effects(effect1: &mut Vec<(usize, WithSpan<u64>)>, effect2: &Vec<(usize, WithSpan<u64>)>) -> (fits:
        bool)
        ensures
            match merged_effects(old(effect1)@, effect2@) {
                Some(merged) => fits && final(effect1)@ == merged,
                None => !fits && final(effect1)@ == old(effect1)@,
            },
    {
        match merge_effect_lists(effect1, effect2) {
            Some(merged) => {
                *effect1 = merged;
                true
            },
            None => false,
        }
    }

    fn find_theoretical(&self, theoretical: TheoreticalIdx) -> (found: Option<usize>)
        ensures
            match found {
                Some(at) => first_theoretical(self@.theoreticals, theoretical, 0) == Some(at as int) && at
                    < self@.theoreticals.len(),
                None => first_theoretical(self@.theoreticals, theoretical, 0) is None,
            },
    {
        let mut i: usize = 0;
        while i < self.theoreticals.len()
            invariant
                i <= self.theoreticals@.len(),
                first_theoretical(self@.theoreticals, theoretical, 0) == first_theoretical(
                    self@.theoreticals,
                    theoretical,
                    i as int,
                ),
            decreases self.theoreticals@.len() - i,
        {
            if self.theoreticals[i].value.0.0 == theoretical.0 {
                return Some(i);
            }
            i += 1;
        }
        None
    }

    fn find_puzzle(&self, puzzle: PuzzleIdx) -> (found: Option<usize>)
        ensures
            match found {
                Some(at) => first_puzzle(self@.puzzles, puzzle, 0) == Some(at as int) && at
                    < self@.puzzles.len(),
                None => first_puzzle(self@.puzzles, puzzle, 0) is None,
            },
    {
        let mut i: usize = 0;
        while i < self.puzzles.len()
            invariant
                i <= self.puzzles@.len(),
                self@.puzzles.len() == self.puzzles@.len(),
                first_puzzle(self@.puzzles, puzzle, 0) == first_puzzle(self@.puzzles, puzzle, i as int),
            decreases self.puzzles@.len() - i,
        {
            if self.puzzles[i].value.puzzle.0 == puzzle.0 {
                return Some(i);
            }
            i += 1;
        }
        None
    }

    /// Takes the next part of the code.
    pub fn rewrite(&mut self, component: WithSpan<OptimizingCodeComponent>, global_regs: &GlobalRegs) -> (out:
        Vec<WithSpan<OptimizingCodeComponent>>)
        requires
            old(self).wf(),
        ensures
            final(self).wf(),
            (final(self)@, code_view(out@)) == coalesce_step(old(self)@, item_view(component)),
    {
        let span = component.span;
        let ghost held = self@;
        match component.value {
            OptimizingCodeComponent::Instruction(OptimizingPrimitive::AddTheoretical { theoretical, amt }, block) => {
                self.block_id = Some(block);
                match self.find_theoretical(theoretical) {
                    Some(at) => {
                        let entry = self.theoreticals[at];
                        if entry.value.1.value > u64::MAX - amt.value {
                            let out = self.dump_state();
                            self.theoreticals.push(WithSpan { value: (theoretical, amt), span });
                            assert(self@.theoreticals =~= seq![
                                WithSpan { value: (theoretical, amt), span },
                            ]);
                            assert(self@.puzzles =~= Seq::empty());
                            out
                        } else {
                            self.theoreticals[at] = WithSpan {
                                value: (
                                    theoretical,
                                    WithSpan {
                                        value: entry.value.1.value + amt.value,
                                        span: entry.value.1.span,
                                    },
                                ),
                                span: entry.span,
                            };
                            assert(self@.puzzles =~= held.puzzles);
                            let out: Vec<WithSpan<OptimizingCodeComponent>> = Vec::new();
                            assert(code_view(out@) =~= Seq::<WithSpan<ComponentView>>::empty());
                            out
                        }
                    },
                    None => {
                        self.theoreticals.push(WithSpan { value: (theoretical, amt), span });
                        assert(self@.puzzles =~= held.puzzles);
                        let out: Vec<WithSpan<OptimizingCodeComponent>> = Vec::new();
                        assert(code_view(out@) =~= Seq::<WithSpan<ComponentView>>::empty());
                        out
                    },
                }
            },
            OptimizingCodeComponent::Instruction(OptimizingPrimitive::AddPuzzle { puzzle, arch, amts }, block) => {
                self.block_id = Some(block);
                match self.find_puzzle(puzzle) {
                    Some(at) => {
                        match merge_effect_lists(&self.puzzles[at].value.amts, &amts) {
                            Some(merged) => {
                                self.puzzles[at].value.amts = merged;
                                assert(self@.puzzles =~= held.puzzles.update(
                                    at as int,
                                    WithSpan {
                                        value: PuzzleEffectView {
                                            puzzle: held.puzzles[at as int].value.puzzle,
                                            arch: held.puzzles[at as int].value.arch,
                                            amts: merged@,
                                        },
                                        span: held.puzzles[at as int].span,
                                    },
                                ));
                                let out: Vec<WithSpan<OptimizingCodeComponent>> = Vec::new();
                                assert(code_view(out@) =~= Seq::<WithSpan<ComponentView>>::empty());
                                out
                            },
                            None => {
                                let out = self.dump_state();
                                self.puzzles.push(WithSpan { value: PuzzleEffect { puzzle, arch, amts }, span });
                                assert(self@.puzzles =~= seq![
                                    WithSpan {
                                        value: PuzzleEffectView { puzzle, arch, amts: amts@ },
                                        span,
                                    },
                                ]);
                                out
                            },
                        }
                    },
                    None => {
                        self.puzzles.push(WithSpan { value: PuzzleEffect { puzzle, arch, amts }, span });
                        assert(self@.puzzles =~= held.puzzles.push(
                            WithSpan { value: PuzzleEffectView { puzzle, arch, amts: amts@ }, span },
                        ));
                        let out: Vec<WithSpan<OptimizingCodeComponent>> = Vec::new();
                        assert(code_view(out@) =~= Seq::<WithSpan<ComponentView>>::empty());
                        out
                    },
                }
            },
            other => {
                let mut out = self.dump_state();
                let ghost before = out@;
                let item = WithSpan { value: other, span };
                out.push(item);
                proof {
                    assert(out@ =~= before + seq![item]);
                    lemma_code_view_concat(before, seq![item]);
                    assert(code_view(seq![item]) =~= seq![item_view(item)]);
                }
                out
            },
        }
    }

    /// Puts out what the pass still holds at the end of the code.
    pub fn eof(self, global_regs: &GlobalRegs) -> (out: Vec<WithSpan<OptimizingCodeComponent>>)
        requires
            self.wf(),
        ensures
            code_view(out@) == dumped(self@),
    {
        let mut pass = self;
        pass.dump_state()
    }
}


/// Replaces loops that together bring every register of a puzzle to zero by
/// one instruction that solves the puzzle.
///
/// The pass holds back loops on one puzzle and keeps, for each register, a
/// modulus to which the loops held back are known to bring it to zero.
#[derive(Debug)]
pub struct TransformSolve {
    instrs: VecDeque<(WithSpan<OptimizingCodeComponent>, usize)>,
    puzzle_idx: Option<PuzzleIdx>,
    guaranteed_zeroed: Vec<(usize, Option<u64>)>,
}

/// What `TransformSolve` holds, as a value.
pub ghost struct TransformView {
    /// The loops held back, each with the register that it brings to zero.
    pub instrs: Seq<(WithSpan<ComponentView>, usize)>,
    /// The puzzle of the last loop.
    pub puzzle_idx: Option<PuzzleIdx>,
    /// For each register that the loops held back are known to bring to zero,
    /// the modulus to which they do; no modulus if it does not fit.
    pub zeroed: Seq<(usize, Option<u64>)>,
}

/// The loops held back, without their registers.
pub open spec fn held_parts(instrs: Seq<(WithSpan<ComponentView>, usize)>) -> Seq<WithSpan<ComponentView>> {
    Seq::new(instrs.len(), |i: int| instrs[i].0)
}

/// Whether the additions change the register `reg`, and `reg` is not the
/// register that the loop tests.
pub open spec fn is_broken(amts: Seq<(usize, WithSpan<u64>)>, tested: usize, reg: usize) -> bool {
    reg != tested && first_with_register(amts, reg, 0) is Some
}

/// The place of the last of the first `upto` loops held back whose register
/// the additions change.
pub open spec fn last_broken(
    instrs: Seq<(WithSpan<ComponentView>, usize)>,
    amts: Seq<(usize, WithSpan<u64>)>,
    tested: usize,
    upto: int,
) -> Option<int>
    decreases upto,
{
    if upto <= 0 {
        None
    } else if is_broken(amts, tested, instrs[upto - 1].1) {
        Some(upto - 1)
    } else {
        last_broken(instrs, amts, tested, upto - 1)
    }
}

/// The first `upto` moduli without those of the registers that the additions
/// change.
pub open spec fn without_broken(
    zeroed: Seq<(usize, Option<u64>)>,
    amts: Seq<(usize, WithSpan<u64>)>,
    tested: usize,
    upto: int,
) -> Seq<(usize, Option<u64>)>
    decreases upto,
{
    if upto <= 0 {
        Seq::empty()
    } else {
        let before = without_broken(zeroed, amts, tested, upto - 1);
        if is_broken(amts, tested, zeroed[upto - 1].0) {
            before
        } else {
            before.push(zeroed[upto - 1])
        }
    }
}

/// The place of the modulus of the register `reg` from `from` on.
pub open spec fn zeroed_at(zeroed: Seq<(usize, Option<u64>)>, reg: usize, from: int) -> Option<int>
    decreases zeroed.len() - from,
{
    if from < 0 || from >= zeroed.len() {
        None
    } else if zeroed[from].0 == reg {
        Some(from)
    } else {
        zeroed_at(zeroed, reg, from + 1)
    }
}

/// The least common multiple of two moduli, if both fit and it does.
pub open spec fn capped_lcm(known: Option<u64>, modulus: u64) -> Option<u64> {
    match known {
        Some(value) => if lcm(value as nat, modulus as nat) <= u64::MAX {
            Some(lcm(value as nat, modulus as nat) as u64)
        } else {
            None
        },
        None => None,
    }
}

/// The moduli once a loop has brought the register `reg` to zero modulo
/// `modulus`.
pub open spec fn with_zeroed(zeroed: Seq<(usize, Option<u64>)>, reg: usize, modulus: u64) -> Seq<
    (usize, Option<u64>),
> {
    match zeroed_at(zeroed, reg, 0) {
        Some(at) => zeroed.update(at, (reg, capped_lcm(zeroed[at].1, modulus))),
        None => zeroed.push((reg, Some(modulus))),
    }
}

/// Whether the first `upto` moduli are the orders of their registers.
pub open spec fn all_zeroed(zeroed: Seq<(usize, Option<u64>)>, arch: Architecture, upto: int) -> bool {
    forall|i: int|
        0 <= i < upto && i < zeroed.len() ==> (#[trigger] zeroed[i]).0 < arch.registers@.len()
            && zeroed[i].1 == Some(arch.registers@[zeroed[i].0 as int].order)
}

/// The stretch that covers the first `upto` loops held back; `start` if there
/// is none.
pub open spec fn covering_span(instrs: Seq<(WithSpan<ComponentView>, usize)>, start: Span, upto: int) -> Span
    decreases upto,
{
    if upto <= 0 {
        start
    } else if upto == 1 {
        instrs[0].0.span
    } else {
        covering_span(instrs, start, upto - 1).merged(instrs[upto - 1].0.span)
    }
}

/// What `TransformSolve` holds and what it puts out, once it has seen one more
/// part.
///
/// A part that is no loop on a register of a puzzle puts out the loops held
/// back, and follows them. A loop on another puzzle than the last puts them
/// out too. Then the loops held back before the last one whose register the
/// new loop changes are put out, the moduli of the registers that it changes
/// are forgotten, and the modulus of the register that it tests is joined
/// with what is known of that register. If every register of the puzzle is
/// then known to be zero modulo its order, the loops held back and the new one
/// become one instruction that solves the puzzle; else the new loop is held
/// back.
pub open spec fn transform_step(
    held: TransformView,
    item: WithSpan<ComponentView>,
    registers: Seq<(Symbol, RegisterLocation)>,
) -> (TransformView, Seq<WithSpan<ComponentView>>) {
    let emptied = TransformView { instrs: Seq::empty(), puzzle_idx: held.puzzle_idx, zeroed: Seq::empty() };
    match item.value {
        ComponentView::Instruction(PrimitiveView::RepeatUntil { puzzle, arch, amts, register }, block) => {
            let other_puzzle = held.puzzle_idx is Some && held.puzzle_idx != Some(puzzle);
            let kept = if other_puzzle {
                emptied
            } else {
                held
            };
            let out = if other_puzzle {
                held_parts(held.instrs)
            } else {
                Seq::empty()
            };
            match found_register(registers, register) {
                Some(FoundRegister::Puzzle { puzzle: found, reg_idx, arch: reg_arch, modulus }) => {
                    if found != puzzle || reg_idx >= reg_arch.registers@.len() {
                        (
                            TransformView {
                                instrs: Seq::empty(),
                                puzzle_idx: Some(puzzle),
                                zeroed: Seq::empty(),
                            },
                            out + held_parts(kept.instrs) + seq![item],
                        )
                    } else {
                        let cut = match last_broken(kept.instrs, amts, reg_idx, kept.instrs.len() as int) {
                            Some(at) => at,
                            None => 0,
                        };
                        let instrs = kept.instrs.skip(cut);
                        let full = match modulus {
                            Some(modulus) => modulus,
                            None => reg_arch.registers@[reg_idx as int].order,
                        };
                        let zeroed = with_zeroed(
                            without_broken(kept.zeroed, amts, reg_idx, kept.zeroed.len() as int),
                            reg_idx,
                            full,
                        );
                        if zeroed.len() == reg_arch.registers@.len() && all_zeroed(
                            zeroed,
                            *reg_arch,
                            zeroed.len() as int,
                        ) {
                            (
                                TransformView {
                                    instrs: Seq::empty(),
                                    puzzle_idx: Some(puzzle),
                                    zeroed: Seq::empty(),
                                },
                                out + held_parts(kept.instrs.take(cut)) + seq![
                                    WithSpan {
                                        value: ComponentView::Instruction(
                                            PrimitiveView::Solve { puzzle: ByPuzzleType::Puzzle(puzzle) },
                                            block,
                                        ),
                                        span: covering_span(instrs, item.span, instrs.len() as int),
                                    },
                                ],
                            )
                        } else {
                            (
                                TransformView {
                                    instrs: instrs.push((item, reg_idx)),
                                    puzzle_idx: Some(puzzle),
                                    zeroed,
                                },
                                out + held_parts(kept.instrs.take(cut)),
                            )
                        }
                    }
                },
                _ => (
                    TransformView { instrs: Seq::empty(), puzzle_idx: Some(puzzle), zeroed: Seq::empty() },
                    out + held_parts(kept.instrs) + seq![item],
                ),
            }
        },
        _ => (emptied, held_parts(held.instrs) + seq![item]),
    }
}

fn amts_change(amts: &Vec<(usize, WithSpan<u64>)>, tested: usize, reg: usize) -> (broken: bool)
    ensures
        broken == is_broken(amts@, tested, reg),
{
    reg != tested && find_register_index(amts, reg).is_some()
}

impl TransformSolve {
    /// What the pass holds.
    pub closed spec fn view(&self) -> TransformView {
        TransformView {
            instrs: Seq::new(self.instrs@.len(), |i: int| (item_view(self.instrs@[i].0), self.instrs@[i].1)),
            puzzle_idx: self.puzzle_idx,
            zeroed: self.guaranteed_zeroed@,
        }
    }

    pub fn new() -> (pass: Self)
        ensures
            pass@ == (TransformView { instrs: Seq::empty(), puzzle_idx: None, zeroed: Seq::empty() }),
    {
        let pass = TransformSolve {
            instrs: VecDeque::new(),
            puzzle_idx: None,
            guaranteed_zeroed: Vec::new(),
        };
        assert(pass@.instrs =~= Seq::empty());
        pass
    }

    /// Puts out the first `count` loops held back.
    fn release(&mut self, count: usize, out: &mut Vec<WithSpan<OptimizingCodeComponent>>)
        requires
            count <= old(self)@.instrs.len(),
        ensures
            code_view(final(out)@) == code_view(old(out)@) + held_parts(old(self)@.instrs.take(count as int)),
            final(self)@ == (TransformView { instrs: old(self)@.instrs.skip(count as int), ..old(self)@ }),
    {
        let mut done: usize = 0;
        let ghost held = self@;
        assert(code_view(out@) =~= code_view(old(out)@) + held_parts(held.instrs.take(0)));
        assert(self@.instrs =~= held.instrs.skip(0));
        while done < count
            invariant
                done <= count <= held.instrs.len(),
                self.puzzle_idx == old(self).puzzle_idx,
                self.guaranteed_zeroed == old(self).guaranteed_zeroed,
                held == old(self)@,
                self@.instrs == held.instrs.skip(done as int),
                code_view(out@) == code_view(old(out)@) + held_parts(held.instrs.take(done as int)),
            decreases count - done,
        {
            let ghost before = self@.instrs;
            let ghost out_before = out@;
            let ghost deque_before = self.instrs@;
            assert(before.len() == deque_before.len());
            let entry = self.instrs.pop_front().unwrap();
            out.push(entry.0);
            proof {
                assert(before[0] == held.instrs[done as int]);
                assert(before[0] == (item_view(deque_before[0].0), deque_before[0].1));
                assert forall|i: int| 0 <= i < self@.instrs.len() implies self@.instrs[i]
                    == held.instrs.skip(done + 1)[i] by {
                    assert(self.instrs@[i] == deque_before[i + 1]);
                    assert(before[i + 1] == (item_view(deque_before[i + 1].0), deque_before[i + 1].1));
                    assert(before[i + 1] == held.instrs[done + 1 + i]);
                }
                assert(self@.instrs =~= held.instrs.skip(done + 1));
                assert(out@ =~= out_before + seq![entry.0]);
                lemma_code_view_concat(out_before, seq![entry.0]);
                assert(code_view(seq![entry.0]) =~= seq![item_view(entry.0)]);
                assert(held_parts(held.instrs.take(done + 1)) =~= held_parts(
                    held.instrs.take(done as int),
                ) + seq![item_view(entry.0)]);
            }
            done += 1;
        }
    }

    /// Puts out the loops held back and forgets what is known of the
    /// registers.
    fn dump(&mut self) -> (out: Vec<WithSpan<OptimizingCodeComponent>>)
        ensures
            code_view(out@) == held_parts(old(self)@.instrs),
            final(self)@ == (TransformView {
                instrs: Seq::empty(),
                puzzle_idx: old(self)@.puzzle_idx,
                zeroed: Seq::empty(),
            }),
    {
        let mut out: Vec<WithSpan<OptimizingCodeComponent>> = Vec::new();
        self.guaranteed_zeroed = Vec::new();
        let count = self.instrs.len();
        let ghost held = self@;
        assert(code_view(out@) =~= Seq::<WithSpan<ComponentView>>::empty());
        self.release(count, &mut out);
        proof {
            assert(held.instrs.take(count as int) =~= held.instrs);
            assert(held.instrs =~= old(self)@.instrs);
            assert(self@.instrs =~= Seq::empty());
            assert(code_view(out@) =~= held_parts(old(self)@.instrs));
        }
        out
    }

    /// Puts out the loops held back, and `instr` behind them.
    fn dump_with(&mut self, instr: WithSpan<OptimizingCodeComponent>) -> (out: Vec<
        WithSpan<OptimizingCodeComponent>,
    >)
        ensures
            code_view(out@) == held_parts(old(self)@.instrs) + seq![item_view(instr)],
            final(self)@ == (TransformView {
                instrs: Seq::empty(),
                puzzle_idx: old(self)@.puzzle_idx,
                zeroed: Seq::empty(),
            }),
    {
        let mut out = self.dump();
        let ghost before = out@;
        out.push(instr);
        proof {
            assert(out@ =~= before + seq![instr]);
            lemma_code_view_concat(before, seq![instr]);
            assert(code_view(seq![instr]) =~= seq![item_view(instr)]);
        }
        out
    }

    fn find_last_broken(&self, amts: &Vec<(usize, WithSpan<u64>)>, tested: usize) -> (found: Option<usize>)
        ensures
            match found {
                Some(at) => last_broken(self@.instrs, amts@, tested, self@.instrs.len() as int) == Some(
                    at as int,
                ) && at < self@.instrs.len(),
                None => last_broken(self@.instrs, amts@, tested, self@.instrs.len() as int) is None,
            },
    {
        let mut i: usize = self.instrs.len();
        while i > 0
            invariant
                i <= self.instrs@.len(),
                self@.instrs.len() == self.instrs@.len(),
                last_broken(self@.instrs, amts@, tested, self@.instrs.len() as int) == last_broken(
                    self@.instrs,
                    amts@,
                    tested,
                    i as int,
                ),
            decreases i,
        {
            if amts_change(amts, tested, self.instrs[i - 1].1) {
                return Some(i - 1);
            }
            i -= 1;
        }
        None
    }

    fn forget_broken(&mut self, amts: &Vec<(usize, WithSpan<u64>)>, tested: usize)
        ensures
            final(self)@ == (TransformView {
                zeroed: without_broken(old(self)@.zeroed, amts@, tested, old(self)@.zeroed.len() as int),
                ..old(self)@
            }),
    {
        let mut kept: Vec<(usize, Option<u64>)> = Vec::new();
        let mut i: usize = 0;
        while i < self.guaranteed_zeroed.len()
            invariant
                i <= self.guaranteed_zeroed@.len(),
                *self == *old(self),
                kept@ == without_broken(self.guaranteed_zeroed@, amts@, tested, i as int),
            decreases self.guaranteed_zeroed@.len() - i,
        {
            let entry = self.guaranteed_zeroed[i];
            if !amts_change(amts, tested, entry.0) {
                kept.push(entry);
            }
            i += 1;
        }
        let ghost before = self@;
        self.guaranteed_zeroed = kept;
        assert(self@.instrs =~= before.instrs);
    }

    fn note_zeroed(&mut self, reg: usize, modulus: u64)
        ensures
            final(self)@ == (TransformView {
                zeroed: with_zeroed(old(self)@.zeroed, reg, modulus),
                ..old(self)@
            }),
    {
        let ghost before = self@;
        let mut i: usize = 0;
        while i < self.guaranteed_zeroed.len()
            invariant
                i <= self.guaranteed_zeroed@.len(),
                *self == *old(self),
                before == old(self)@,
                zeroed_at(self.guaranteed_zeroed@, reg, 0) == zeroed_at(self.guaranteed_zeroed@, reg, i as int),
            decreases self.guaranteed_zeroed@.len() - i,
        {
            if self.guaranteed_zeroed[i].0 == reg {
                let joined = match self.guaranteed_zeroed[i].1 {
                    Some(known) => checked_lcm(known, modulus),
                    None => None,
                };
                self.guaranteed_zeroed[i] = (reg, joined);
                assert(self@.instrs =~= before.instrs);
                return ;
            }
            i += 1;
        }
        self.guaranteed_zeroed.push((reg, Some(modulus)));
        assert(self@.instrs =~= before.instrs);
    }

    fn check_all_zeroed(&self, arch: &Architecture) -> (all: bool)
        ensures
            all == (self@.zeroed.len() == arch.registers@.len() && all_zeroed(
                self@.zeroed,
                *arch,
                self@.zeroed.len() as int,
            )),
    {
        if self.guaranteed_zeroed.len() != arch.registers.len() {
            return false;
        }
        let mut i: usize = 0;
        while i < self.guaranteed_zeroed.len()
            invariant
                i <= self.guaranteed_zeroed@.len(),
                all_zeroed(self.guaranteed_zeroed@, *arch, i as int),
            decreases self.guaranteed_zeroed@.len() - i,
        {
            let entry = self.guaranteed_zeroed[i];
            if entry.0 >= arch.registers.len() {
                return false;
            }
            match entry.1 {
                Some(value) => {
                    if value != arch.registers[entry.0].order {
                        return false;
                    }
                },
                None => {
                    return false;
                },
            }
            i += 1;
        }
        true
    }

    fn span_of_held(&self, start: Span) -> (span: Span)
        ensures
            span == covering_span(self@.instrs, start, self@.instrs.len() as int),
    {
        if self.instrs.len() == 0 {
            return start;
        }
        let mut span = self.instrs[0].0.span;
        let mut i: usize = 1;
        while i < self.instrs.len()
            invariant
                1 <= i <= self.instrs@.len(),
                self@.instrs.len() == self.instrs@.len(),
                span == covering_span(self@.instrs, start, i as int),
            decreases self.instrs@.len() - i,
        {
            span = span.merge(self.instrs[i].0.span);
            i += 1;
        }
        span
    }

    /// Takes the next part of the code.
    pub fn rewrite(&mut self, component: WithSpan<OptimizingCodeComponent>, global_regs: &GlobalRegs) -> (out:
        Vec<WithSpan<OptimizingCodeComponent>>)
        ensures
            (final(self)@, code_view(out@)) == transform_step(
                old(self)@,
                item_view(component),
                global_regs.registers@,
            ),
    {
        let (puzzle, register, block) = match &component.value {
            OptimizingCodeComponent::Instruction(
                OptimizingPrimitive::RepeatUntil { puzzle, arch: _, amts: _, register },
                block,
            ) => (*puzzle, *register, *block),
            _ => {
                return self.dump_with(component);
            },
        };
        let mut dumped: Vec<WithSpan<OptimizingCodeComponent>> = Vec::new();
        let other_puzzle = match self.puzzle_idx {
            Some(last) => last.0 != puzzle.0,
            None => false,
        };
        if other_puzzle {
            dumped = self.dump();
        } else {
            assert(code_view(dumped@) =~= Seq::<WithSpan<ComponentView>>::empty());
        }
        self.puzzle_idx = Some(puzzle);
        let ghost kept = self@;
        let ghost out = code_view(dumped@);
        let (reg_idx, reg_arch, modulus) = match global_regs.get_reg(&register) {
            Some(FoundRegister::Puzzle { puzzle: found, reg_idx, arch, modulus }) => {
                if found.0 != puzzle.0 || reg_idx >= arch.registers.len() {
                    let mut rest = self.dump_with(component);
                    let ghost before = dumped@;
                    let ghost more = rest@;
                    dumped.append(&mut rest);
                    proof {
                        lemma_code_view_concat(before, more);
                    }
                    return dumped;
                }
                (reg_idx, arch, modulus)
            },
            _ => {
                let mut rest = self.dump_with(component);
                let ghost before = dumped@;
                let ghost more = rest@;
                dumped.append(&mut rest);
                proof {
                    lemma_code_view_concat(before, more);
                }
                return dumped;
            },
        };
        let full = match modulus {
            Some(modulus) => modulus,
            None => reg_arch.registers[reg_idx].order,
        };
        match &component.value {
            OptimizingCodeComponent::Instruction(
                OptimizingPrimitive::RepeatUntil { puzzle: _, arch: _, amts, register: _ },
                _,
            ) => {
                match self.find_last_broken(amts, reg_idx) {
                    Some(at) => {
                        self.release(at, &mut dumped);
                    },
                    None => {
                        assert(kept.instrs.take(0) =~= Seq::empty());
                        assert(held_parts(kept.instrs.take(0)) =~= Seq::empty());
                        assert(kept.instrs.skip(0) =~= kept.instrs);
                        assert(code_view(dumped@) =~= out + held_parts(kept.instrs.take(0)));
                    },
                }
                self.forget_broken(amts, reg_idx);
            },
            _ => {
                assert(false);
            },
        }
        self.note_zeroed(reg_idx, full);
        if self.check_all_zeroed(&reg_arch) {
            let span = self.span_of_held(component.span);
            self.instrs = VecDeque::new();
            self.guaranteed_zeroed = Vec::new();
            assert(self@.instrs =~= Seq::empty());
            let ghost before = dumped@;
            let solve = WithSpan {
                value: OptimizingCodeComponent::Instruction(
                    OptimizingPrimitive::Solve { puzzle: ByPuzzleType::Puzzle(puzzle) },
                    block,
                ),
                span,
            };
            dumped.push(solve);
            proof {
                assert(dumped@ =~= before + seq![solve]);
                lemma_code_view_concat(before, seq![solve]);
                assert(code_view(seq![solve]) =~= seq![item_view(solve)]);
            }
        } else {
            let ghost before = self@;
            self.instrs.push_back((component, reg_idx));
            assert(self@.instrs =~= before.instrs.push((item_view(component), reg_idx)));
        }
        dumped
    }

    /// Puts out what the pass still holds at the end of the code.
    pub fn eof(self, global_regs: &GlobalRegs) -> (out: Vec<WithSpan<OptimizingCodeComponent>>)
        ensures
            code_view(out@) == held_parts(self@.instrs),
    {
        let mut pass = self;
        pass.dump()
    }
}

} // verus!
