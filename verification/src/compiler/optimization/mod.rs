//! The rewriting of an expanded program: instructions that name registers by
//! puzzle and index, the catalogue of all registers, and the passes.

use crate::architectures::Architecture;
use crate::compiler::syntax::{BlockID, Label, LabelReference, RegisterReference};
use crate::names::Symbol;
use crate::span::WithSpan;
use std::sync::Arc;
use vstd::prelude::*;

pub mod laws;
pub mod local;

verus! {

/// The place of a theoretical register among the theoretical registers.
#[derive(Clone, Copy, Debug, PartialEq, Eq, Structural, Hash)]
pub struct TheoreticalIdx(pub usize);

/// The place of a puzzle among the puzzles.
#[derive(Clone, Copy, Debug, PartialEq, Eq, Structural, Hash)]
pub struct PuzzleIdx(pub usize);

/// A theoretical register or a puzzle.
#[derive(Clone, Copy, Debug, PartialEq, Eq, Structural, Hash)]
pub enum ByPuzzleType {
    Theoretical(TheoreticalIdx),
    Puzzle(PuzzleIdx),
}

/// An instruction between expansion and emission.
#[derive(Debug)]
#[allow(inconsistent_fields)]
pub enum OptimizingPrimitive {
    AddTheoretical { theoretical: TheoreticalIdx, amt: WithSpan<u64> },
    /// Adds to registers of one puzzle, each given by its index.
    AddPuzzle { puzzle: PuzzleIdx, arch: Arc<Architecture>, amts: Vec<(usize, WithSpan<u64>)> },
    Goto { label: WithSpan<LabelReference> },
    SolvedGoto { label: WithSpan<LabelReference>, register: RegisterReference },
    Input { message: WithSpan<Symbol>, register: RegisterReference },
    Halt { message: WithSpan<Symbol>, register: Option<RegisterReference> },
    Print { message: WithSpan<Symbol>, register: Option<RegisterReference> },
    /// Adds to registers of one puzzle again and again until `register` is
    /// zero.
    RepeatUntil {
        puzzle: PuzzleIdx,
        arch: Arc<Architecture>,
        amts: Vec<(usize, WithSpan<u64>)>,
        register: RegisterReference,
    },
    Solve { puzzle: ByPuzzleType },
}

/// An instruction with its block, or a label.
#[derive(Debug)]
pub enum OptimizingCodeComponent {
    Instruction(OptimizingPrimitive, BlockID),
    Label(Label),
}

/// An instruction as a value: its list of additions as a sequence.
#[allow(inconsistent_fields)]
pub ghost enum PrimitiveView {
    AddTheoretical { theoretical: TheoreticalIdx, amt: WithSpan<u64> },
    AddPuzzle { puzzle: PuzzleIdx, arch: Arc<Architecture>, amts: Seq<(usize, WithSpan<u64>)> },
    Goto { label: WithSpan<LabelReference> },
    SolvedGoto { label: WithSpan<LabelReference>, register: RegisterReference },
    Input { message: WithSpan<Symbol>, register: RegisterReference },
    Halt { message: WithSpan<Symbol>, register: Option<RegisterReference> },
    Print { message: WithSpan<Symbol>, register: Option<RegisterReference> },
    RepeatUntil {
        puzzle: PuzzleIdx,
        arch: Arc<Architecture>,
        amts: Seq<(usize, WithSpan<u64>)>,
        register: RegisterReference,
    },
    Solve { puzzle: ByPuzzleType },
}

/// A part of the code as a value.
pub ghost enum ComponentView {
    Instruction(PrimitiveView, BlockID),
    Label(Label),
}

impl View for OptimizingPrimitive {
    type V = PrimitiveView;

    open spec fn view(&self) -> PrimitiveView {
        match *self {
            OptimizingPrimitive::AddTheoretical { theoretical, amt } => PrimitiveView::AddTheoretical {
                theoretical,
                amt,
            },
            OptimizingPrimitive::AddPuzzle { puzzle, arch, amts } => PrimitiveView::AddPuzzle {
                puzzle,
                arch,
                amts: amts@,
            },
            OptimizingPrimitive::Goto { label } => PrimitiveView::Goto { label },
            OptimizingPrimitive::SolvedGoto { label, register } => PrimitiveView::SolvedGoto {
                label,
                register,
            },
            OptimizingPrimitive::Input { message, register } => PrimitiveView::Input {
                message,
                register,
            },
            OptimizingPrimitive::Halt { message, register } => PrimitiveView::Halt { message, register },
            OptimizingPrimitive::Print { message, register } => PrimitiveView::Print {
                message,
                register,
            },
            OptimizingPrimitive::RepeatUntil { puzzle, arch, amts, register } => PrimitiveView::RepeatUntil {
                puzzle,
                arch,
                amts: amts@,
                register,
            },
            OptimizingPrimitive::Solve { puzzle } => PrimitiveView::Solve { puzzle },
        }
    }
}

impl View for OptimizingCodeComponent {
    type V = ComponentView;

    open spec fn view(&self) -> ComponentView {
        match *self {
            OptimizingCodeComponent::Instruction(primitive, block) => ComponentView::Instruction(
                primitive@,
                block,
            ),
            OptimizingCodeComponent::Label(label) => ComponentView::Label(label),
        }
    }
}

/// A part of the code with its place, as a value.
pub open spec fn item_view(item: WithSpan<OptimizingCodeComponent>) -> WithSpan<ComponentView> {
    WithSpan { value: item.value@, span: item.span }
}

/// A list of parts of the code as a value.
pub open spec fn code_view(code: Seq<WithSpan<OptimizingCodeComponent>>) -> Seq<WithSpan<ComponentView>> {
    Seq::new(code.len(), |i: int| item_view(code[i]))
}

/// A copy of a list of additions.
pub fn clone_amts(amts: &Vec<(usize, WithSpan<u64>)>) -> (copy: Vec<(usize, WithSpan<u64>)>)
    ensures
        copy@ == amts@,
{
    let mut copy: Vec<(usize, WithSpan<u64>)> = Vec::new();
    let mut i: usize = 0;
    while i < amts.len()
        invariant
            i <= amts@.len(),
            copy@ == amts@.take(i as int),
        decreases amts@.len() - i,
    {
        copy.push(amts[i]);
        assert(amts@.take(i + 1) =~= amts@.take(i as int).push(amts@[i as int]));
        i += 1;
    }
    assert(amts@.take(amts@.len() as int) =~= amts@);
    copy
}

impl Clone for OptimizingPrimitive {
    fn clone(&self) -> (copy: Self)
        ensures
            copy@ == self@,
    {
        match self {
            OptimizingPrimitive::AddTheoretical { theoretical, amt } => OptimizingPrimitive::AddTheoretical {
                theoretical: *theoretical,
                amt: *amt,
            },
            OptimizingPrimitive::AddPuzzle { puzzle, arch, amts } => OptimizingPrimitive::AddPuzzle {
                puzzle: *puzzle,
                arch: arch.clone(),
                amts: clone_amts(amts),
            },
            OptimizingPrimitive::Goto { label } => OptimizingPrimitive::Goto { label: *label },
            OptimizingPrimitive::SolvedGoto { label, register } => OptimizingPrimitive::SolvedGoto {
                label: *label,
                register: *register,
            },
            OptimizingPrimitive::Input { message, register } => OptimizingPrimitive::Input {
                message: *message,
                register: *register,
            },
            OptimizingPrimitive::Halt { message, register } => OptimizingPrimitive::Halt {
                message: *message,
                register: *register,
            },
            OptimizingPrimitive::Print { message, register } => OptimizingPrimitive::Print {
                message: *message,
                register: *register,
            },
            OptimizingPrimitive::RepeatUntil { puzzle, arch, amts, register } => OptimizingPrimitive::RepeatUntil {
                puzzle: *puzzle,
                arch: arch.clone(),
                amts: clone_amts(amts),
                register: *register,
            },
            OptimizingPrimitive::Solve { puzzle } => OptimizingPrimitive::Solve { puzzle: *puzzle },
        }
    }
}

impl Clone for OptimizingCodeComponent {
    fn clone(&self) -> (copy: Self)
        ensures
            copy@ == self@,
    {
        match self {
            OptimizingCodeComponent::Instruction(primitive, block) => OptimizingCodeComponent::Instruction(
                primitive.clone(),
                *block,
            ),
            OptimizingCodeComponent::Label(label) => OptimizingCodeComponent::Label(label.clone()),
        }
    }
}

/// Where a register lives.
#[derive(Debug)]
pub enum RegisterLocation {
    Theoretical { idx: TheoreticalIdx },
    /// The register `reg_idx` of the architecture `arch` of a puzzle.
    Puzzle { puzzle: PuzzleIdx, reg_idx: usize, arch: Arc<Architecture> },
}

/// A register as a reference finds it: where it lives, and the modulus of the
/// reference.
#[derive(Debug)]
pub enum FoundRegister {
    Theoretical { idx: TheoreticalIdx, modulus: Option<u64> },
    Puzzle { puzzle: PuzzleIdx, reg_idx: usize, arch: Arc<Architecture>, modulus: Option<u64> },
}

/// The catalogue of all registers of a program, by name.
#[derive(Debug)]
pub struct GlobalRegs {
    pub registers: Vec<(Symbol, RegisterLocation)>,
}

/// The first entry of the catalogue under that name.
pub open spec fn find_location(registers: Seq<(Symbol, RegisterLocation)>, name: Symbol) -> Option<
    RegisterLocation,
>
    decreases registers.len(),
{
    if registers.len() == 0 {
        None
    } else if registers[0].0 == name {
        Some(registers[0].1)
    } else {
        find_location(registers.drop_first(), name)
    }
}

/// The register that a reference means.
pub open spec fn found_register(registers: Seq<(Symbol, RegisterLocation)>, reference: RegisterReference) -> Option<
    FoundRegister,
> {
    match find_location(registers, reference.reg_name.value) {
        Some(RegisterLocation::Theoretical { idx }) => Some(
            FoundRegister::Theoretical { idx, modulus: reference.modulus },
        ),
        Some(RegisterLocation::Puzzle { puzzle, reg_idx, arch }) => Some(
            FoundRegister::Puzzle { puzzle, reg_idx, arch, modulus: reference.modulus },
        ),
        None => None,
    }
}

impl GlobalRegs {
    /// The register that a reference means, if the catalogue holds its name.
    pub fn get_reg(&self, reference: &RegisterReference) -> (found: Option<FoundRegister>)
        ensures
            found == found_register(self.registers@, *reference),
    {
        let ghost all = self.registers@;
        assert(all.skip(0) =~= all);
        let mut i: usize = 0;
        while i < self.registers.len()
            invariant
                i <= all.len(),
                all == self.registers@,
                find_location(all, reference.reg_name.value) == find_location(
                    all.skip(i as int),
                    reference.reg_name.value,
                ),
            decreases all.len() - i,
        {
            if self.registers[i].0.0 == reference.reg_name.value.0 {
                assert(all.skip(i as int)[0] == self.registers@[i as int]);
                return match &self.registers[i].1 {
                    RegisterLocation::Theoretical { idx } => Some(
                        FoundRegister::Theoretical { idx: *idx, modulus: reference.modulus },
                    ),
                    RegisterLocation::Puzzle { puzzle, reg_idx, arch } => Some(
                        FoundRegister::Puzzle {
                            puzzle: *puzzle,
                            reg_idx: *reg_idx,
                            arch: arch.clone(),
                            modulus: reference.modulus,
                        },
                    ),
                };
            }
            assert(all.skip(i as int).drop_first() =~= all.skip(i + 1));
            i += 1;
        }
        assert(all.skip(i as int).len() == 0);
        None
    }
}

} // verus!
