//! What the passes keep: gathering additions does not change what is added
//! to any register.

use crate::compiler::optimization::local::{
    coalesce_step, dumped, first_puzzle, first_theoretical, first_with_register, merge_effects_upto,
    merge_one, merged_effects, CoalesceView, PuzzleEffectView,
};
use crate::compiler::optimization::{ComponentView, PrimitiveView, PuzzleIdx, TheoreticalIdx};
use crate::span::WithSpan;
use vstd::prelude::*;

verus! {

/// What the first `upto` additions of a list add to the register `reg`.
pub open spec fn effect_total(amts: Seq<(usize, WithSpan<u64>)>, reg: usize, upto: int) -> int
    decreases upto,
{
    if upto <= 0 {
        0
    } else {
        effect_total(amts, reg, upto - 1) + if amts[upto - 1].0 == reg {
            amts[upto - 1].1.value as int
        } else {
            0
        }
    }
}

/// What a part of the code adds to the register `reg` of a puzzle.
pub open spec fn part_adds_puzzle(part: ComponentView, puzzle: PuzzleIdx, reg: usize) -> int {
    match part {
        ComponentView::Instruction(PrimitiveView::AddPuzzle { puzzle: on, amts, .. }, _) => if on == puzzle {
            effect_total(amts, reg, amts.len() as int)
        } else {
            0
        },
        _ => 0,
    }
}

/// What a part of the code adds to a theoretical register.
pub open spec fn part_adds_theoretical(part: ComponentView, theoretical: TheoreticalIdx) -> int {
    match part {
        ComponentView::Instruction(PrimitiveView::AddTheoretical { theoretical: to, amt }, _) => if to
            == theoretical {
            amt.value as int
        } else {
            0
        },
        _ => 0,
    }
}

/// What the first `upto` parts of a code add to the register `reg` of a
/// puzzle.
pub open spec fn code_adds_puzzle(code: Seq<WithSpan<ComponentView>>, puzzle: PuzzleIdx, reg: usize, upto: int) -> int
    decreases upto,
{
    if upto <= 0 {
        0
    } else {
        code_adds_puzzle(code, puzzle, reg, upto - 1) + part_adds_puzzle(code[upto - 1].value, puzzle, reg)
    }
}

/// What the first `upto` parts of a code add to a theoretical register.
pub open spec fn code_adds_theoretical(code: Seq<WithSpan<ComponentView>>, theoretical: TheoreticalIdx, upto: int) -> int
    decreases upto,
{
    if upto <= 0 {
        0
    } else {
        code_adds_theoretical(code, theoretical, upto - 1) + part_adds_theoretical(
            code[upto - 1].value,
            theoretical,
        )
    }
}

/// What the first `upto` gathered additions to puzzles add to the register
/// `reg` of a puzzle.
pub open spec fn held_adds_puzzle(
    gathered: Seq<WithSpan<PuzzleEffectView>>,
    puzzle: PuzzleIdx,
    reg: usize,
    upto: int,
) -> int
    decreases upto,
{
    if upto <= 0 {
        0
    } else {
        held_adds_puzzle(gathered, puzzle, reg, upto - 1) + if gathered[upto - 1].value.puzzle == puzzle {
            effect_total(gathered[upto - 1].value.amts, reg, gathered[upto - 1].value.amts.len() as int)
        } else {
            0
        }
    }
}

/// What the first `upto` gathered additions to theoretical registers add to
/// one of them.
pub open spec fn held_adds_theoretical(
    gathered: Seq<WithSpan<(TheoreticalIdx, WithSpan<u64>)>>,
    theoretical: TheoreticalIdx,
    upto: int,
) -> int
    decreases upto,
{
    if upto <= 0 {
        0
    } else {
        held_adds_theoretical(gathered, theoretical, upto - 1) + if gathered[upto - 1].value.0 == theoretical {
            gathered[upto - 1].value.1.value as int
        } else {
            0
        }
    }
}

proof fn lemma_effect_total_same(a: Seq<(usize, WithSpan<u64>)>, b: Seq<(usize, WithSpan<u64>)>, reg: usize, upto: int)
    requires
        0 <= upto <= a.len(),
        upto <= b.len(),
        forall|i: int| 0 <= i < upto ==> a[i].0 == b[i].0 && a[i].1.value == b[i].1.value,
    ensures
        effect_total(a, reg, upto) == effect_total(b, reg, upto),
    decreases upto,
{
    if upto > 0 {
        lemma_effect_total_same(a, b, reg, upto - 1);
    }
}

proof fn lemma_effect_total_update(
    amts: Seq<(usize, WithSpan<u64>)>,
    at: int,
    entry: (usize, WithSpan<u64>),
    reg: usize,
    upto: int,
)
    requires
        0 <= at < amts.len(),
        0 <= upto <= amts.len(),
        entry.0 == amts[at].0,
    ensures
        effect_total(amts.update(at, entry), reg, upto) == effect_total(amts, reg, upto) + if at < upto
            && entry.0 == reg {
            entry.1.value - amts[at].1.value
        } else {
            0
        },
    decreases upto,
{
    if upto > 0 {
        lemma_effect_total_update(amts, at, entry, reg, upto - 1);
    }
}

/// One more addition adds its amount.
proof fn lemma_merge_one_total(amts: Seq<(usize, WithSpan<u64>)>, new: (usize, WithSpan<u64>), reg: usize)
    requires
        merge_one(amts, new) is Some,
    ensures
        ({
            let merged = merge_one(amts, new).unwrap();
            effect_total(merged, reg, merged.len() as int) == effect_total(amts, reg, amts.len() as int) + if new.0
                == reg {
                new.1.value as int
            } else {
                0
            }
        }),
{
    let merged = merge_one(amts, new).unwrap();
    match first_with_register(amts, new.0, 0) {
        Some(at) => {
            lemma_first_with_register(amts, new.0, 0);
            lemma_effect_total_update(amts, at, merged[at], reg, amts.len() as int);
        },
        None => {
            lemma_effect_total_same(amts, merged, reg, amts.len() as int);
            assert(merged.drop_last() =~= amts);
        },
    }
}

proof fn lemma_first_with_register(amts: Seq<(usize, WithSpan<u64>)>, reg: usize, from: int)
    requires
        0 <= from,
    ensures
        first_with_register(amts, reg, from) matches Some(at) ==> from <= at < amts.len() && amts[at].0 == reg,
    decreases amts.len() - from,
{
    if from < amts.len() && amts[from].0 != reg {
        lemma_first_with_register(amts, reg, from + 1);
    }
}

/// Two lists of additions as one add what both add.
pub proof fn lemma_merged_total(
    first: Seq<(usize, WithSpan<u64>)>,
    second: Seq<(usize, WithSpan<u64>)>,
    reg: usize,
    upto: int,
)
    requires
        0 <= upto <= second.len(),
        merge_effects_upto(first, second, upto) is Some,
    ensures
        ({
            let merged = merge_effects_upto(first, second, upto).unwrap();
            effect_total(merged, reg, merged.len() as int) == effect_total(first, reg, first.len() as int)
                + effect_total(second, reg, upto)
        }),
    decreases upto,
{
    if upto > 0 {
        lemma_merged_total(first, second, reg, upto - 1);
        lemma_merge_one_total(merge_effects_upto(first, second, upto - 1).unwrap(), second[upto - 1], reg);
    }
}

proof fn lemma_first_puzzle(gathered: Seq<WithSpan<PuzzleEffectView>>, puzzle: PuzzleIdx, from: int)
    requires
        0 <= from,
    ensures
        first_puzzle(gathered, puzzle, from) matches Some(at) ==> from <= at < gathered.len()
            && gathered[at].value.puzzle == puzzle,
    decreases gathered.len() - from,
{
    if from < gathered.len() && gathered[from].value.puzzle != puzzle {
        lemma_first_puzzle(gathered, puzzle, from + 1);
    }
}

proof fn lemma_first_theoretical(
    gathered: Seq<WithSpan<(TheoreticalIdx, WithSpan<u64>)>>,
    theoretical: TheoreticalIdx,
    from: int,
)
    requires
        0 <= from,
    ensures
        first_theoretical(gathered, theoretical, from) matches Some(at) ==> from <= at < gathered.len()
            && gathered[at].value.0 == theoretical,
    decreases gathered.len() - from,
{
    if from < gathered.len() && gathered[from].value.0 != theoretical {
        lemma_first_theoretical(gathered, theoretical, from + 1);
    }
}

proof fn lemma_held_puzzle_update(
    gathered: Seq<WithSpan<PuzzleEffectView>>,
    at: int,
    entry: WithSpan<PuzzleEffectView>,
    puzzle: PuzzleIdx,
    reg: usize,
    upto: int,
)
    requires
        0 <= at < gathered.len(),
        0 <= upto <= gathered.len(),
        entry.value.puzzle == gathered[at].value.puzzle,
    ensures
        held_adds_puzzle(gathered.update(at, entry), puzzle, reg, upto) == held_adds_puzzle(
            gathered,
            puzzle,
            reg,
            upto,
        ) + if at < upto && entry.value.puzzle == puzzle {
            effect_total(entry.value.amts, reg, entry.value.amts.len() as int) - effect_total(
                gathered[at].value.amts,
                reg,
                gathered[at].value.amts.len() as int,
            )
        } else {
            0
        },
    decreases upto,
{
    if upto > 0 {
        lemma_held_puzzle_update(gathered, at, entry, puzzle, reg, upto - 1);
    }
}

proof fn lemma_held_puzzle_same(
    a: Seq<WithSpan<PuzzleEffectView>>,
    b: Seq<WithSpan<PuzzleEffectView>>,
    puzzle: PuzzleIdx,
    reg: usize,
    upto: int,
)
    requires
        0 <= upto <= a.len(),
        upto <= b.len(),
        forall|i: int| 0 <= i < upto ==> a[i] == b[i],
    ensures
        held_adds_puzzle(a, puzzle, reg, upto) == held_adds_puzzle(b, puzzle, reg, upto),
    decreases upto,
{
    if upto > 0 {
        lemma_held_puzzle_same(a, b, puzzle, reg, upto - 1);
    }
}

proof fn lemma_held_theoretical_update(
    gathered: Seq<WithSpan<(TheoreticalIdx, WithSpan<u64>)>>,
    at: int,
    entry: WithSpan<(TheoreticalIdx, WithSpan<u64>)>,
    theoretical: TheoreticalIdx,
    upto: int,
)
    requires
        0 <= at < gathered.len(),
        0 <= upto <= gathered.len(),
        entry.value.0 == gathered[at].value.0,
    ensures
        held_adds_theoretical(gathered.update(at, entry), theoretical, upto) == held_adds_theoretical(
            gathered,
            theoretical,
            upto,
        ) + if at < upto && entry.value.0 == theoretical {
            entry.value.1.value - gathered[at].value.1.value
        } else {
            0
        },
    decreases upto,
{
    if upto > 0 {
        lemma_held_theoretical_update(gathered, at, entry, theoretical, upto - 1);
    }
}

proof fn lemma_held_theoretical_same(
    a: Seq<WithSpan<(TheoreticalIdx, WithSpan<u64>)>>,
    b: Seq<WithSpan<(TheoreticalIdx, WithSpan<u64>)>>,
    theoretical: TheoreticalIdx,
    upto: int,
)
    requires
        0 <= upto <= a.len(),
        upto <= b.len(),
        forall|i: int| 0 <= i < upto ==> a[i] == b[i],
    ensures
        held_adds_theoretical(a, theoretical, upto) == held_adds_theoretical(b, theoretical, upto),
    decreases upto,
{
    if upto > 0 {
        lemma_held_theoretical_same(a, b, theoretical, upto - 1);
    }
}

/// What is gathered, put out as instructions, adds what was gathered.
pub proof fn lemma_dumped_adds(held: CoalesceView, puzzle: PuzzleIdx, reg: usize, theoretical: TheoreticalIdx, upto: int)
    requires
        0 <= upto <= held.theoreticals.len() + held.puzzles.len(),
    ensures
        code_adds_puzzle(dumped(held), puzzle, reg, upto) == held_adds_puzzle(
            held.puzzles,
            puzzle,
            reg,
            if upto < held.theoreticals.len() {
                0
            } else {
                upto - held.theoreticals.len()
            },
        ),
        code_adds_theoretical(dumped(held), theoretical, upto) == held_adds_theoretical(
            held.theoreticals,
            theoretical,
            if upto < held.theoreticals.len() {
                upto
            } else {
                held.theoreticals.len() as int
            },
        ),
    decreases upto,
{
    if upto > 0 {
        lemma_dumped_adds(held, puzzle, reg, theoretical, upto - 1);
    }
}

proof fn lemma_code_adds_same(
    a: Seq<WithSpan<ComponentView>>,
    b: Seq<WithSpan<ComponentView>>,
    puzzle: PuzzleIdx,
    reg: usize,
    theoretical: TheoreticalIdx,
    upto: int,
)
    requires
        0 <= upto <= a.len(),
        upto <= b.len(),
        forall|i: int| 0 <= i < upto ==> a[i] == b[i],
    ensures
        code_adds_puzzle(a, puzzle, reg, upto) == code_adds_puzzle(b, puzzle, reg, upto),
        code_adds_theoretical(a, theoretical, upto) == code_adds_theoretical(b, theoretical, upto),
    decreases upto,
{
    if upto > 0 {
        lemma_code_adds_same(a, b, puzzle, reg, theoretical, upto - 1);
    }
}

/// What `CoalesceAdds` holds and puts out after one more part adds, to every
/// register of every puzzle and to every theoretical register, what it held
/// before and what the part adds.
pub proof fn lemma_coalesce_keeps_sums(
    held: CoalesceView,
    item: WithSpan<ComponentView>,
    puzzle: PuzzleIdx,
    reg: usize,
    theoretical: TheoreticalIdx,
)
    ensures
        ({
            let (next, out) = coalesce_step(held, item);
            &&& held_adds_puzzle(next.puzzles, puzzle, reg, next.puzzles.len() as int) + code_adds_puzzle(
                out,
                puzzle,
                reg,
                out.len() as int,
            ) == held_adds_puzzle(held.puzzles, puzzle, reg, held.puzzles.len() as int) + part_adds_puzzle(
                item.value,
                puzzle,
                reg,
            )
            &&& held_adds_theoretical(next.theoreticals, theoretical, next.theoreticals.len() as int)
                + code_adds_theoretical(out, theoretical, out.len() as int) == held_adds_theoretical(
                held.theoreticals,
                theoretical,
                held.theoreticals.len() as int,
            ) + part_adds_theoretical(item.value, theoretical)
        }),
{
    let (next, out) = coalesce_step(held, item);
    let all = (held.theoreticals.len() + held.puzzles.len()) as int;
    match item.value {
        ComponentView::Instruction(PrimitiveView::AddTheoretical { theoretical: to, amt }, block) => {
            let with_block = CoalesceView { block_id: Some(block), ..held };
            match first_theoretical(held.theoreticals, to, 0) {
                Some(at) => {
                    lemma_first_theoretical(held.theoreticals, to, 0);
                    if held.theoreticals[at].value.1.value + amt.value <= u64::MAX {
                        lemma_held_theoretical_update(
                            held.theoreticals,
                            at,
                            next.theoreticals[at],
                            theoretical,
                            held.theoreticals.len() as int,
                        );
                    } else {
                        lemma_dumped_adds(with_block, puzzle, reg, theoretical, all);
                        assert(held_adds_theoretical(next.theoreticals, theoretical, 0) == 0);
                        assert(held_adds_puzzle(next.puzzles, puzzle, reg, 0) == 0);
                    }
                },
                None => {
                    lemma_held_theoretical_same(
                        held.theoreticals,
                        next.theoreticals,
                        theoretical,
                        held.theoreticals.len() as int,
                    );
                },
            }
        },
        ComponentView::Instruction(PrimitiveView::AddPuzzle { puzzle: on, arch, amts }, block) => {
            let with_block = CoalesceView { block_id: Some(block), ..held };
            match first_puzzle(held.puzzles, on, 0) {
                Some(at) => {
                    lemma_first_puzzle(held.puzzles, on, 0);
                    match merged_effects(held.puzzles[at].value.amts, amts) {
                        Some(merged) => {
                            lemma_merged_total(held.puzzles[at].value.amts, amts, reg, amts.len() as int);
                            lemma_held_puzzle_update(
                                held.puzzles,
                                at,
                                next.puzzles[at],
                                puzzle,
                                reg,
                                held.puzzles.len() as int,
                            );
                        },
                        None => {
                            lemma_dumped_adds(with_block, puzzle, reg, theoretical, all);
                            assert(held_adds_theoretical(next.theoreticals, theoretical, 0) == 0);
                            assert(held_adds_puzzle(next.puzzles, puzzle, reg, 0) == 0);
                        },
                    }
                },
                None => {
                    lemma_held_puzzle_same(held.puzzles, next.puzzles, puzzle, reg, held.puzzles.len() as int);
                },
            }
        },
        _ => {
            lemma_dumped_adds(held, puzzle, reg, theoretical, all);
            lemma_code_adds_same(dumped(held), out, puzzle, reg, theoretical, all);
        },
    }
}

} // verus!
