//! The interpreter: a machine that steps through a program, instruction by
//! instruction, on registers in theory and on simulated puzzles.

use crate::architectures::{is_decoded, is_generator_orders};
use crate::interpreter::controller::{
    fits, message_with, panic_message, Answer, Controller, InputTaken, Request,
};
use crate::interpreter::puzzle_states::{shows_solved, SimulatedPuzzle, TheoreticalState};
use crate::permutations::{powered, Algorithm, PermutationGroup};
use std::sync::Arc;
use vstd::prelude::*;

verus! {

/// A register as an instruction reads it.
#[derive(Debug)]
pub enum Register {
    /// A register in theory, by its place.
    Theoretical { idx: usize },
    /// A register on the puzzle `puzzle`, with its generator and the facelets
    /// that tell its value.
    Puzzle { puzzle: usize, generator: Algorithm, facelets: Vec<usize> },
}

/// What a conditional jump tests.
#[derive(Debug)]
pub enum Test {
    /// Whether a register in theory is zero.
    Theoretical { idx: usize },
    /// Whether facelets of a puzzle are solved.
    Puzzle { puzzle: usize, facelets: Vec<usize> },
}

/// A state to bring to zero.
#[derive(Clone, Copy, Debug, PartialEq, Eq, Structural, Hash)]
pub enum Target {
    Theoretical(usize),
    Puzzle(usize),
}

/// An instruction of a program.
#[derive(Debug)]
#[allow(inconsistent_fields)]
pub enum Instruction {
    Goto { instruction_idx: usize },
    SolvedGoto { test: Test, instruction_idx: usize },
    /// Asks for a number up to `max_input` and adds it to the register.
    Input { message: Vec<u8>, register: Register, max_input: u64 },
    Halt { message: Vec<u8>, register: Option<Register> },
    Print { message: Vec<u8>, register: Option<Register> },
    AddTheoretical { idx: usize, amount: u64 },
    PerformAlgorithm { puzzle: usize, algorithm: Algorithm },
    Solve { target: Target },
    /// Performs the algorithm until the facelets are solved.
    RepeatUntil { puzzle: usize, facelets: Vec<usize>, algorithm: Algorithm },
}

/// A program: its instructions, the orders of its registers in theory, and
/// the groups of its puzzles.
#[derive(Debug)]
pub struct Program {
    pub theoretical: Vec<u64>,
    pub puzzles: Vec<Arc<PermutationGroup>>,
    pub instructions: Vec<Instruction>,
}

/// Why the machine stands still.
#[derive(Clone, Copy, Debug, PartialEq, Eq, Structural, Hash)]
pub enum PausedState {
    /// It waits for a number up to `max_input`.
    Input { max_input: u64 },
    /// The program has ended.
    Halt,
    /// A register could not be decoded.
    Panicked,
}

/// Whether the machine runs.
#[derive(Clone, Copy, Debug, PartialEq, Eq, Structural, Hash)]
pub enum ExecutionState {
    Running,
    Paused(PausedState),
}

/// Whether a register names states that the program has.
pub open spec fn register_ok(register: Register, theoretical: nat, puzzles: nat) -> bool {
    match register {
        Register::Theoretical { idx } => idx < theoretical,
        Register::Puzzle { puzzle, .. } => puzzle < puzzles,
    }
}

/// Whether an instruction names states and instructions that the program has.
/// A jump may lead behind the last instruction, where the program ends.
pub open spec fn instruction_ok(instruction: Instruction, theoretical: nat, puzzles: nat, count: nat) -> bool {
    match instruction {
        Instruction::Goto { instruction_idx } => instruction_idx <= count,
        Instruction::SolvedGoto { test, instruction_idx } => instruction_idx <= count && match test {
            Test::Theoretical { idx } => idx < theoretical,
            Test::Puzzle { puzzle, .. } => puzzle < puzzles,
        },
        Instruction::Input { register, .. } => register_ok(register, theoretical, puzzles),
        Instruction::Halt { register, .. } => match register {
            Some(register) => register_ok(register, theoretical, puzzles),
            None => true,
        },
        Instruction::Print { register, .. } => match register {
            Some(register) => register_ok(register, theoretical, puzzles),
            None => true,
        },
        Instruction::AddTheoretical { idx, .. } => idx < theoretical,
        Instruction::PerformAlgorithm { puzzle, .. } => puzzle < puzzles,
        Instruction::Solve { target } => match target {
            Target::Theoretical(idx) => idx < theoretical,
            Target::Puzzle(idx) => idx < puzzles,
        },
        Instruction::RepeatUntil { puzzle, .. } => puzzle < puzzles,
    }
}

/// Whether every instruction of a program names states and instructions that
/// the program has, and every register in theory has an order.
pub open spec fn program_ok(program: Program) -> bool {
    &&& forall|i: int|
        0 <= i < program.instructions@.len() ==> instruction_ok(
            #[trigger] program.instructions@[i],
            program.theoretical@.len(),
            program.puzzles@.len(),
            program.instructions@.len(),
        )
    &&& forall|i: int| 0 <= i < program.theoretical@.len() ==> #[trigger] program.theoretical@[i] != 0
}

pub fn check_register(register: &Register, theoretical: usize, puzzles: usize) -> (ok: bool)
    ensures
        ok == register_ok(*register, theoretical as nat, puzzles as nat),
{
    match register {
        Register::Theoretical { idx } => *idx < theoretical,
        Register::Puzzle { puzzle, .. } => *puzzle < puzzles,
    }
}

pub fn check_instruction(instruction: &Instruction, theoretical: usize, puzzles: usize, count: usize) -> (ok:
    bool)
    ensures
        ok == instruction_ok(*instruction, theoretical as nat, puzzles as nat, count as nat),
{
    match instruction {
        Instruction::Goto { instruction_idx } => *instruction_idx <= count,
        Instruction::SolvedGoto { test, instruction_idx } => *instruction_idx <= count && match test {
            Test::Theoretical { idx } => *idx < theoretical,
            Test::Puzzle { puzzle, .. } => *puzzle < puzzles,
        },
        Instruction::Input { register, .. } => check_register(register, theoretical, puzzles),
        Instruction::Halt { register, .. } => match register {
            Some(register) => check_register(register, theoretical, puzzles),
            None => true,
        },
        Instruction::Print { register, .. } => match register {
            Some(register) => check_register(register, theoretical, puzzles),
            None => true,
        },
        Instruction::AddTheoretical { idx, .. } => *idx < theoretical,
        Instruction::PerformAlgorithm { puzzle, .. } => *puzzle < puzzles,
        Instruction::Solve { target } => match target {
            Target::Theoretical(idx) => *idx < theoretical,
            Target::Puzzle(idx) => *idx < puzzles,
        },
        Instruction::RepeatUntil { puzzle, .. } => *puzzle < puzzles,
    }
}

/// A machine that runs a program.
#[derive(Debug)]
pub struct Interpreter {
    controller: Controller,
    puzzle_states: Vec<SimulatedPuzzle>,
}

/// What a step of the machine has done.
#[derive(Clone, Copy, Debug, PartialEq, Eq, Structural, Hash)]
pub enum ActionPerformed {
    /// Nothing: the machine stands still.
    Nothing,
    /// The machine has jumped.
    Goto,
    /// The machine has jumped since the register was zero.
    SucceededSolvedGoto,
    /// The machine has not jumped since the register was not zero.
    FailedSolvedGoto,
    /// The machine has added to a register or performed an algorithm.
    Added,
    /// The machine has brought a state to zero.
    Solved,
    /// The machine has performed an algorithm until facelets were solved.
    RepeatedUntil,
    /// The machine has printed a message.
    Printed,
    /// The machine has come to a halt, to wait for input, or to grief.
    Paused,
}

impl Interpreter {
    /// The program.
    pub closed spec fn program_view(&self) -> Program {
        self.controller.program_view()
    }

    /// The place of the next instruction.
    pub closed spec fn counter(&self) -> usize {
        self.controller.counter()
    }

    /// The messages that the program has printed.
    pub closed spec fn messages_view(&self) -> Seq<Vec<u8>> {
        self.controller.messages_view()
    }

    /// Whether the machine runs.
    pub closed spec fn state_view(&self) -> ExecutionState {
        self.controller.state_view()
    }

    /// The registers in theory.
    pub closed spec fn theoretical_view(&self) -> Seq<TheoreticalState> {
        self.controller.theoretical_view()
    }

    /// The puzzles.
    pub closed spec fn puzzles_view(&self) -> Seq<SimulatedPuzzle> {
        self.puzzle_states@
    }

    /// What holds of every machine: its program is in order, it has a state
    /// for every register in theory and for every puzzle of the program, its
    /// next instruction lies in the program or right behind it, and it only
    /// waits for input at an input instruction.
    pub open spec fn wf(&self) -> bool {
        &&& program_ok(self.program_view())
        &&& self.theoretical_view().len() == self.program_view().theoretical@.len()
        &&& self.puzzles_view().len() == self.program_view().puzzles@.len()
        &&& self.counter() <= self.program_view().instructions@.len()
        &&& self.state_view() matches ExecutionState::Paused(PausedState::Input { max_input })
            ==> self.counter() < self.program_view().instructions@.len() && (
        self.program_view().instructions@[self.counter() as int] matches Instruction::Input {
            max_input: most,
            ..
        } && most == max_input)
    }

    /// A machine at the start of a program, with every register at zero and
    /// every puzzle solved. There is none for a program that is not in order.
    pub fn new(program: Program) -> (machine: Option<Interpreter>)
        ensures
            match machine {
                Some(machine) => {
                    &&& machine.wf()
                    &&& program_ok(program)
                    &&& machine.program_view() == program
                    &&& machine.counter() == 0
                    &&& machine.messages_view().len() == 0
                    &&& machine.state_view() == ExecutionState::Running
                    &&& forall|i: int|
                        0 <= i < program.theoretical@.len() ==> (
                        #[trigger] machine.theoretical_view()[i]).value_view() == 0
                            && machine.theoretical_view()[i].order_view() == program.theoretical@[i]
                    &&& forall|i: int|
                        0 <= i < program.puzzles@.len() ==> (
                        #[trigger] machine.puzzles_view()[i]).state_view().mapping_view().len() == 0
                            && machine.puzzles_view()[i].group_view() == program.puzzles@[i]
                },
                None => !program_ok(program),
            },
    {
        let controller = match Controller::new(program) {
            Some(controller) => controller,
            None => {
                return None;
            },
        };
        let mut puzzle_states: Vec<SimulatedPuzzle> = Vec::new();
        let mut p: usize = 0;
        while p < controller.program().puzzles.len()
            invariant
                controller.program_view() == program,
                p <= program.puzzles@.len(),
                puzzle_states@.len() == p,
                forall|j: int|
                    0 <= j < p ==> (#[trigger] puzzle_states@[j]).state_view().mapping_view().len() == 0
                        && puzzle_states@[j].group_view() == program.puzzles@[j],
            decreases program.puzzles@.len() - p,
        {
            puzzle_states.push(SimulatedPuzzle::initialize(controller.program().puzzles[p].clone()));
            p += 1;
        }
        Some(Interpreter { controller, puzzle_states })
    }

    /// The place of the next instruction.
    pub fn program_counter(&self) -> (counter: usize)
        ensures
            counter == self.counter(),
    {
        self.controller.program_counter()
    }

    /// Whether the machine runs.
    pub fn execution_state(&self) -> (state: ExecutionState)
        ensures
            state == self.state_view(),
    {
        self.controller.execution_state()
    }

    /// The messages that the program has printed.
    pub fn messages(&self) -> (messages: &Vec<Vec<u8>>)
        ensures
            messages@ == self.messages_view(),
    {
        self.controller.messages()
    }

    /// A register in theory.
    pub fn theoretical_state(&self, idx: usize) -> (state: &TheoreticalState)
        requires
            idx < self.theoretical_view().len(),
        ensures
            *state == self.theoretical_view()[idx as int],
    {
        self.controller.theoretical_state(idx)
    }

    /// A puzzle.
    pub fn puzzle_state(&self, idx: usize) -> (state: &SimulatedPuzzle)
        requires
            idx < self.puzzles_view().len(),
        ensures
            *state == self.puzzles_view()[idx as int],
    {
        &self.puzzle_states[idx]
    }

    /// Everything but the place of the next instruction is as it was.
    pub open spec fn same_states(&self, before: &Interpreter) -> bool {
        &&& self.program_view() == before.program_view()
        &&& self.messages_view() == before.messages_view()
        &&& self.theoretical_view() == before.theoretical_view()
        &&& self.puzzles_view() == before.puzzles_view()
    }

    /// The registers in theory are as they were, but for the one at `idx`.
    pub open spec fn same_theoretical_but(&self, before: &Interpreter, idx: int) -> bool {
        &&& self.theoretical_view().len() == before.theoretical_view().len()
        &&& forall|j: int|
            0 <= j < self.theoretical_view().len() && j != idx ==> #[trigger] self.theoretical_view()[j]
                == before.theoretical_view()[j]
        &&& self.theoretical_view()[idx].order_view() == before.theoretical_view()[idx].order_view()
    }

    /// The puzzles are as they were, but for the one at `idx`.
    pub open spec fn same_puzzles_but(&self, before: &Interpreter, idx: int) -> bool {
        &&& self.puzzles_view().len() == before.puzzles_view().len()
        &&& forall|j: int|
            0 <= j < self.puzzles_view().len() && j != idx ==> #[trigger] self.puzzles_view()[j]
                == before.puzzles_view()[j]
        &&& self.puzzles_view()[idx].group_view() == before.puzzles_view()[idx].group_view()
    }

    /// One message more has been printed.
    pub open spec fn printed(&self, before: &Interpreter, message: Seq<u8>) -> bool {
        &&& self.messages_view().len() == before.messages_view().len() + 1
        &&& self.messages_view().last()@ == message
        &&& forall|j: int|
            0 <= j < before.messages_view().len() ==> #[trigger] self.messages_view()[j]
                == before.messages_view()[j]
    }

    /// Whether a test holds.
    pub open spec fn test_holds(&self, test: Test) -> bool {
        match test {
            Test::Theoretical { idx } => self.theoretical_view()[idx as int].value_view() == 0,
            Test::Puzzle { puzzle, facelets } => shows_solved(
                self.puzzles_view()[puzzle as int].state_view().mapping_view(),
                self.puzzles_view()[puzzle as int].group_view().colors_view(),
                facelets@,
                facelets@.len() as int,
            ),
        }
    }

    /// Whether `value` is what reading the register gives.
    pub open spec fn is_read(&self, register: Register, value: Option<u64>) -> bool {
        match register {
            Register::Theoretical { idx } => value == Some(
                self.theoretical_view()[idx as int].value_view(),
            ),
            Register::Puzzle { puzzle, generator, facelets } => exists|orders: Seq<u64>|
                #[trigger] is_generator_orders(orders, &generator) && is_decoded(
                    value,
                    self.puzzles_view()[puzzle as int].state_view().mapping_view(),
                    generator.permutation_view().mapping_view(),
                    orders,
                    facelets@,
                ),
        }
    }

    /// What a message instruction prints: its message, with the value of its
    /// register behind it if it has one. It prints nothing if the register
    /// cannot be decoded.
    pub open spec fn is_report(&self, message: Seq<u8>, register: Option<Register>, report: Option<Seq<u8>>) -> bool {
        match register {
            None => report == Some(message),
            Some(register) => exists|value: Option<u64>|
                #[trigger] self.is_read(register, value) && report == match value {
                    Some(value) => Some(message_with(message, value)),
                    None => None,
                },
        }
    }

    /// Whether the machine `self` is what a step makes of the running machine
    /// `before` at the instruction `instruction`.
    pub open spec fn is_step(&self, before: &Interpreter, instruction: Instruction, action: ActionPerformed) -> bool {
        let next = (before.counter() + 1) as usize;
        match instruction {
            Instruction::Goto { instruction_idx } => {
                &&& self.same_states(before)
                &&& self.counter() == instruction_idx
                &&& self.state_view() == ExecutionState::Running
                &&& action == ActionPerformed::Goto
            },
            Instruction::SolvedGoto { test, instruction_idx } => {
                &&& self.same_states(before)
                &&& self.state_view() == ExecutionState::Running
                &&& if before.test_holds(test) {
                    self.counter() == instruction_idx && action == ActionPerformed::SucceededSolvedGoto
                } else {
                    self.counter() == next && action == ActionPerformed::FailedSolvedGoto
                }
            },
            Instruction::AddTheoretical { idx, amount } => {
                &&& self.program_view() == before.program_view()
                &&& self.messages_view() == before.messages_view()
                &&& self.puzzles_view() == before.puzzles_view()
                &&& self.same_theoretical_but(before, idx as int)
                &&& self.theoretical_view()[idx as int].value_view() == (
                before.theoretical_view()[idx as int].value_view() + amount) % (
                before.theoretical_view()[idx as int].order_view() as int)
                &&& self.counter() == next
                &&& self.state_view() == ExecutionState::Running
                &&& action == ActionPerformed::Added
            },
            Instruction::PerformAlgorithm { puzzle, algorithm } => {
                &&& self.program_view() == before.program_view()
                &&& self.messages_view() == before.messages_view()
                &&& self.theoretical_view() == before.theoretical_view()
                &&& self.same_puzzles_but(before, puzzle as int)
                &&& forall|i: int|
                    #[trigger] self.puzzles_view()[puzzle as int].state_view().apply(i)
                        == algorithm.permutation_view().apply(
                        before.puzzles_view()[puzzle as int].state_view().apply(i),
                    )
                &&& self.counter() == next
                &&& self.state_view() == ExecutionState::Running
                &&& action == ActionPerformed::Added
            },
            Instruction::Solve { target } => {
                &&& self.program_view() == before.program_view()
                &&& self.messages_view() == before.messages_view()
                &&& match target {
                    Target::Theoretical(idx) => {
                        &&& self.puzzles_view() == before.puzzles_view()
                        &&& self.same_theoretical_but(before, idx as int)
                        &&& self.theoretical_view()[idx as int].value_view() == 0
                    },
                    Target::Puzzle(idx) => {
                        &&& self.theoretical_view() == before.theoretical_view()
                        &&& self.same_puzzles_but(before, idx as int)
                        &&& self.puzzles_view()[idx as int].state_view().mapping_view().len() == 0
                    },
                }
                &&& self.counter() == next
                &&& self.state_view() == ExecutionState::Running
                &&& action == ActionPerformed::Solved
            },
            Instruction::RepeatUntil { puzzle, facelets, algorithm } => {
                &&& self.program_view() == before.program_view()
                &&& self.theoretical_view() == before.theoretical_view()
                &&& self.same_puzzles_but(before, puzzle as int)
                &&& exists|done: Option<()>| #[trigger]
                    self.puzzles_view()[puzzle as int].is_repeated_until(
                        &before.puzzles_view()[puzzle as int],
                        facelets@,
                        &algorithm,
                        done,
                    ) && match done {
                        Some(()) => {
                            &&& action == ActionPerformed::RepeatedUntil
                            &&& self.messages_view() == before.messages_view()
                            &&& self.counter() == next
                            &&& self.state_view() == ExecutionState::Running
                        },
                        None => {
                            &&& action == ActionPerformed::Paused
                            &&& self.printed(before, panic_message())
                            &&& self.counter() == before.counter()
                            &&& self.state_view() == ExecutionState::Paused(PausedState::Panicked)
                        },
                    }
            },
            Instruction::Print { message, register } => {
                &&& self.program_view() == before.program_view()
                &&& self.theoretical_view() == before.theoretical_view()
                &&& self.puzzles_view() == before.puzzles_view()
                &&& exists|report: Option<Seq<u8>>|
                    #[trigger] before.is_report(message@, register, report) && match report {
                        Some(text) => {
                            &&& self.printed(before, text)
                            &&& self.counter() == next
                            &&& self.state_view() == ExecutionState::Running
                            &&& action == ActionPerformed::Printed
                        },
                        None => {
                            &&& self.printed(before, panic_message())
                            &&& self.counter() == before.counter()
                            &&& self.state_view() == ExecutionState::Paused(PausedState::Panicked)
                            &&& action == ActionPerformed::Paused
                        },
                    }
            },
            Instruction::Halt { message, register } => {
                &&& self.program_view() == before.program_view()
                &&& self.theoretical_view() == before.theoretical_view()
                &&& self.puzzles_view() == before.puzzles_view()
                &&& self.counter() == before.counter()
                &&& action == ActionPerformed::Paused
                &&& exists|report: Option<Seq<u8>>|
                    #[trigger] before.is_report(message@, register, report) && match report {
                        Some(text) => self.printed(before, text) && self.state_view()
                            == ExecutionState::Paused(PausedState::Halt),
                        None => self.printed(before, panic_message()) && self.state_view()
                            == ExecutionState::Paused(PausedState::Panicked),
                    }
            },
            Instruction::Input { message, register, max_input } => {
                &&& self.program_view() == before.program_view()
                &&& self.theoretical_view() == before.theoretical_view()
                &&& self.puzzles_view() == before.puzzles_view()
                &&& self.printed(before, message@)
                &&& self.counter() == before.counter()
                &&& self.state_view() == ExecutionState::Paused(PausedState::Input { max_input })
                &&& action == ActionPerformed::Paused
            },
        }
    }

    /// Performs the next instruction.
    ///
    /// A machine that stands still does nothing. A machine behind the last
    /// instruction comes to a halt. Else the instruction is performed: a jump
    /// sets the place of the next instruction, a conditional jump does so if
    /// its register is zero, additions and algorithms change a register and
    /// go on, messages are printed with the value of their register, and a
    /// register that cannot be decoded brings the machine to grief.
    pub fn step(&mut self) -> (action: ActionPerformed)
        requires
            old(self).wf(),
        ensures
            final(self).wf(),
            final(self).program_view() == old(self).program_view(),
            old(self).state_view() != ExecutionState::Running ==> action == ActionPerformed::Nothing
                && final(self).same_states(old(self)) && final(self).counter() == old(self).counter()
                && final(self).state_view() == old(self).state_view(),
            old(self).state_view() == ExecutionState::Running && old(self).counter()
                == old(self).program_view().instructions@.len() ==> {
                &&& action == ActionPerformed::Paused
                &&& final(self).same_states(old(self))
                &&& final(self).counter() == old(self).counter()
                &&& final(self).state_view() == ExecutionState::Paused(PausedState::Halt)
            },
            old(self).state_view() == ExecutionState::Running && old(self).counter()
                < old(self).program_view().instructions@.len() ==> final(self).is_step(
                old(self),
                old(self).program_view().instructions@[old(self).counter() as int],
                action,
            ),
    {
        let ghost before = *self;
        let answer = match self.controller.request() {
            Request::Nothing => Answer::Done,
            Request::FaceletsSolved { puzzle, facelets } => Answer::Solved(
                self.puzzle_states[puzzle].facelets_solved(facelets.as_slice()),
            ),
            Request::Compose { puzzle, algorithm } => {
                self.puzzle_states[puzzle].compose_into(algorithm);
                Answer::Done
            },
            Request::Solve { puzzle } => {
                self.puzzle_states[puzzle].solve();
                Answer::Done
            },
            Request::RepeatUntil { puzzle, facelets, algorithm } => {
                let done = self.puzzle_states[puzzle].repeat_until(facelets.as_slice(), algorithm);
                assert(self.puzzles_view()[puzzle as int].is_repeated_until(
                    &before.puzzles_view()[puzzle as int],
                    facelets@,
                    algorithm,
                    done,
                ));
                Answer::Repeated(done.is_some())
            },
            Request::Print { puzzle, facelets, generator } => {
                let value = self.puzzle_states[puzzle].print(facelets.as_slice(), generator);
                proof {
                    let register = Register::Puzzle { puzzle, generator: *generator, facelets: *facelets };
                    assert(before.is_read(register, value));
                }
                Answer::Decoded(value)
            },
            Request::Halt { puzzle, facelets, generator } => {
                let value = self.puzzle_states[puzzle].halt(facelets.as_slice(), generator);
                proof {
                    let register = Register::Puzzle { puzzle, generator: *generator, facelets: *facelets };
                    assert(before.is_read(register, value));
                }
                Answer::Decoded(value)
            },
        };
        let ghost asked = *self;
        let action = self.controller.advance(answer);
        proof {
            if before.state_view() == ExecutionState::Running && before.counter()
                < before.program_view().instructions@.len() {
                let instruction = before.program_view().instructions@[before.counter() as int];
                assert(before.controller.at_work());
                assert(instruction == before.controller.instruction());
                assert(fits(before.controller.wanted(), answer));
                assert(self.controller.is_advance(&asked.controller, instruction, answer, action));
                match instruction {
                    Instruction::Halt { message, register } => {
                        let report = before.controller.report_of(message@, register, answer);
                        match register {
                            None => {},
                            Some(Register::Theoretical { idx }) => {
                                let read = Some(before.theoretical_view()[idx as int].value_view());
                                assert(before.is_read(register->Some_0, read));
                            },
                            Some(Register::Puzzle { .. }) => {
                                let read = answer->Decoded_0;
                                assert(before.is_read(register->Some_0, read));
                            },
                        }
                        assert(before.is_report(message@, register, report));
                    },
                    Instruction::Print { message, register } => {
                        let report = before.controller.report_of(message@, register, answer);
                        match register {
                            None => {},
                            Some(Register::Theoretical { idx }) => {
                                let read = Some(before.theoretical_view()[idx as int].value_view());
                                assert(before.is_read(register->Some_0, read));
                            },
                            Some(Register::Puzzle { .. }) => {
                                let read = answer->Decoded_0;
                                assert(before.is_read(register->Some_0, read));
                            },
                        }
                        assert(before.is_report(message@, register, report));
                    },
                    Instruction::RepeatUntil { puzzle, facelets, algorithm } => {
                        let done = if answer == Answer::Repeated(true) {
                            Some(())
                        } else {
                            None::<()>
                        };
                        assert(self.puzzles_view()[puzzle as int].is_repeated_until(
                            &before.puzzles_view()[puzzle as int],
                            facelets@,
                            &algorithm,
                            done,
                        ));
                    },
                    _ => {},
                }
                assert(self.is_step(&before, instruction, action));
            }
        }
        action
    }

    /// Gives the machine the number that it waits for: the number is added to
    /// the register of the input instruction, and the machine runs on behind
    /// that instruction. The number is refused, and nothing changes, if the
    /// machine does not wait for one or if the number is larger than the
    /// largest that the instruction takes.
    pub fn give_input(&mut self, value: u64) -> (taken: bool)
        requires
            old(self).wf(),
        ensures
            final(self).wf(),
            final(self).program_view() == old(self).program_view(),
            final(self).messages_view() == old(self).messages_view(),
            match old(self).state_view() {
                ExecutionState::Paused(PausedState::Input { max_input }) => taken == (value <= max_input),
                _ => !taken,
            },
            !taken ==> {
                &&& final(self).same_states(old(self))
                &&& final(self).counter() == old(self).counter()
                &&& final(self).state_view() == old(self).state_view()
            },
            taken ==> final(self).counter() == old(self).counter() + 1 && final(self).state_view()
                == ExecutionState::Running && match old(self).program_view().instructions@[old(self).counter() as int] {
                Instruction::Input { register: Register::Theoretical { idx }, .. } => {
                    &&& final(self).puzzles_view() == old(self).puzzles_view()
                    &&& final(self).same_theoretical_but(old(self), idx as int)
                    &&& final(self).theoretical_view()[idx as int].value_view() == (
                    old(self).theoretical_view()[idx as int].value_view() + value) % (
                    old(self).theoretical_view()[idx as int].order_view() as int)
                },
                Instruction::Input { register: Register::Puzzle { puzzle, generator, .. }, .. } => {
                    &&& final(self).theoretical_view() == old(self).theoretical_view()
                    &&& final(self).same_puzzles_but(old(self), puzzle as int)
                    &&& forall|i: int|
                        #[trigger] final(self).puzzles_view()[puzzle as int].state_view().apply(i)
                            == powered(
                            generator.permutation_view().mapping_view(),
                            value as int,
                            old(self).puzzles_view()[puzzle as int].state_view().apply(i),
                        )
                },
                _ => false,
            },
    {
        let ghost before = *self;
        match self.controller.give_input(value) {
            InputTaken::Refused => false,
            InputTaken::Theoretical => true,
            InputTaken::Puzzle { puzzle, algorithm } => {
                assert(instruction_ok(
                    before.program_view().instructions@[before.counter() as int],
                    before.program_view().theoretical@.len(),
                    before.program_view().puzzles@.len(),
                    before.program_view().instructions@.len(),
                ));
                self.puzzle_states[puzzle].compose_into(&algorithm);
                true
            },
        }
    }
}

} // verus!
