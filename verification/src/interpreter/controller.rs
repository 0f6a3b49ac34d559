//! The part of the interpreter that decides: it holds the program, the place
//! of the next instruction, the registers in theory and the messages, says
//! what the next instruction needs of a puzzle, and takes the answer. Whoever
//! holds the puzzles, simulated or real, performs what is needed in between.

use crate::cycle_notation::{decimal_digits, push_decimal};
use crate::interpreter::machine::{
    check_instruction, instruction_ok, program_ok, ActionPerformed, ExecutionState, Instruction, PausedState,
    Program, Register, Target, Test,
};
use crate::interpreter::puzzle_states::TheoreticalState;
use crate::names::bytes_to_vec;
use crate::permutations::{powered, repeated_moves, Algorithm};
use vstd::prelude::*;

verus! {

/// What the next instruction needs of a puzzle.
#[derive(Debug)]
pub enum Request<'a> {
    /// Nothing.
    Nothing,
    /// Whether the facelets of the puzzle are solved.
    FaceletsSolved { puzzle: usize, facelets: &'a Vec<usize> },
    /// That the algorithm be performed on the puzzle.
    Compose { puzzle: usize, algorithm: &'a Algorithm },
    /// That the puzzle be solved.
    Solve { puzzle: usize },
    /// That the algorithm be performed on the puzzle until the facelets are
    /// solved.
    RepeatUntil { puzzle: usize, facelets: &'a Vec<usize>, algorithm: &'a Algorithm },
    /// The value of a register of the puzzle, with the puzzle left as it is.
    Print { puzzle: usize, facelets: &'a Vec<usize>, generator: &'a Algorithm },
    /// The value of a register of the puzzle, whatever becomes of the puzzle.
    Halt { puzzle: usize, facelets: &'a Vec<usize>, generator: &'a Algorithm },
}

/// What the puzzle has answered.
#[derive(Clone, Copy, Debug, PartialEq, Eq)]
pub enum Answer {
    /// It has done what was needed, or nothing was.
    Done,
    /// Whether the facelets are solved.
    Solved(bool),
    /// The value of the register, if it could be decoded.
    Decoded(Option<u64>),
    /// Whether the facelets could be solved by repeating the algorithm.
    Repeated(bool),
}

/// What has become of a number that the machine was given.
#[derive(Debug)]
pub enum InputTaken {
    /// The machine does not wait for a number, or not for one so large.
    Refused,
    /// The number has been added to a register in theory.
    Theoretical,
    /// The number is to be added to a register of the puzzle: the algorithm
    /// has to be performed on it.
    Puzzle { puzzle: usize, algorithm: Algorithm },
}

/// What an instruction needs of a puzzle.
pub open spec fn request_for<'a>(instruction: &'a Instruction) -> Request<'a> {
    match instruction {
        Instruction::SolvedGoto { test: Test::Puzzle { puzzle, facelets }, .. } => Request::FaceletsSolved {
            puzzle: *puzzle,
            facelets,
        },
        Instruction::PerformAlgorithm { puzzle, algorithm } => Request::Compose { puzzle: *puzzle, algorithm },
        Instruction::Solve { target: Target::Puzzle(puzzle) } => Request::Solve { puzzle: *puzzle },
        Instruction::RepeatUntil { puzzle, facelets, algorithm } => Request::RepeatUntil {
            puzzle: *puzzle,
            facelets,
            algorithm,
        },
        Instruction::Print { register: Some(Register::Puzzle { puzzle, generator, facelets }), .. } => Request::Print {
            puzzle: *puzzle,
            facelets,
            generator,
        },
        Instruction::Halt { register: Some(Register::Puzzle { puzzle, generator, facelets }), .. } => Request::Halt {
            puzzle: *puzzle,
            facelets,
            generator,
        },
        _ => Request::Nothing,
    }
}

/// Whether an answer is of the kind that was asked for.
pub open spec fn fits(request: Request, answer: Answer) -> bool {
    match request {
        Request::Nothing | Request::Compose { .. } | Request::Solve { .. } => answer is Done,
        Request::FaceletsSolved { .. } => answer is Solved,
        Request::RepeatUntil { .. } => answer is Repeated,
        Request::Print { .. } | Request::Halt { .. } => answer is Decoded,
    }
}

/// A message with a value behind it.
pub open spec fn message_with(message: Seq<u8>, value: u64) -> Seq<u8> {
    message + seq![32u8] + decimal_digits(value as nat)
}

fn with_value(message: &Vec<u8>, value: u64) -> (text: Vec<u8>)
    ensures
        text@ == message_with(message@, value),
{
    let mut text = bytes_to_vec(message.as_slice());
    text.push(32);
    push_decimal(&mut text, value);
    text
}

/// The message of a machine that could not decode a register.
pub open spec fn panic_message() -> Seq<u8> {
    seq![
        84u8, 104u8, 101u8, 32u8, 114u8, 101u8, 103u8, 105u8, 115u8, 116u8, 101u8, 114u8, 32u8, 99u8,
        97u8, 110u8, 110u8, 111u8, 116u8, 32u8, 98u8, 101u8, 32u8, 100u8, 101u8, 99u8, 111u8, 100u8,
        101u8, 100u8,
    ]
}

fn panic_text() -> (text: Vec<u8>)
    ensures
        text@ == panic_message(),
{
    let letters: [u8; 30] = [
        84, 104, 101, 32, 114, 101, 103, 105, 115, 116, 101, 114, 32, 99, 97, 110, 110, 111, 116, 32,
        98, 101, 32, 100, 101, 99, 111, 100, 101, 100,
    ];
    let mut text: Vec<u8> = Vec::new();
    let mut i: usize = 0;
    while i < 30
        invariant
            i <= 30,
            text@ == letters@.take(i as int),
        decreases 30 - i,
    {
        text.push(letters[i]);
        assert(text@ =~= letters@.take(i + 1));
        i += 1;
    }
    assert(text@ =~= panic_message());
    text
}

/// The deciding part of a machine that runs a program.
#[derive(Debug)]
pub struct Controller {
    program: Program,
    program_counter: usize,
    messages: Vec<Vec<u8>>,
    execution_state: ExecutionState,
    theoretical_states: Vec<TheoreticalState>,
}

impl Controller {
    /// The program.
    pub closed spec fn program_view(&self) -> Program {
        self.program
    }

    /// The place of the next instruction.
    pub closed spec fn counter(&self) -> usize {
        self.program_counter
    }

    /// The messages that the program has printed.
    pub closed spec fn messages_view(&self) -> Seq<Vec<u8>> {
        self.messages@
    }

    /// Whether the machine runs.
    pub closed spec fn state_view(&self) -> ExecutionState {
        self.execution_state
    }

    /// The registers in theory.
    pub closed spec fn theoretical_view(&self) -> Seq<TheoreticalState> {
        self.theoretical_states@
    }

    /// What holds of every machine: its program is in order, it has a state
    /// for every register in theory, its next instruction lies in the program
    /// or right behind it, and it only waits for input at an input
    /// instruction.
    pub open spec fn wf(&self) -> bool {
        &&& program_ok(self.program_view())
        &&& self.theoretical_view().len() == self.program_view().theoretical@.len()
        &&& self.counter() <= self.program_view().instructions@.len()
        &&& self.state_view() matches ExecutionState::Paused(PausedState::Input { max_input })
            ==> self.counter() < self.program_view().instructions@.len() && (
        self.program_view().instructions@[self.counter() as int] matches Instruction::Input {
            max_input: most,
            ..
        } && most == max_input)
    }

    /// Whether the machine has an instruction to perform.
    pub open spec fn at_work(&self) -> bool {
        self.state_view() == ExecutionState::Running && self.counter() < self.program_view().instructions@.len()
    }

    /// The instruction that is performed next.
    pub open spec fn instruction(&self) -> Instruction {
        self.program_view().instructions@[self.counter() as int]
    }

    /// What the machine needs of a puzzle next.
    pub open spec fn wanted(&self) -> Request {
        if self.at_work() {
            request_for(&self.instruction())
        } else {
            Request::Nothing
        }
    }

    /// A machine at the start of a program, with every register at zero.
    /// There is none for a program that is not in order.
    pub fn new(program: Program) -> (machine: Option<Controller>)
        ensures
            match machine {
                Some(machine) => {
                    &&& machine.wf()
                    &&& program_ok(program)
                    &&& machine.program_view() == program
                    &&& machine.counter() == 0
                    &&& machine.messages_view().len() == 0
                    &&& machine.state_view() == ExecutionState::Running
                    &&& forall|i: int|
                        0 <= i < program.theoretical@.len() ==> (
                        #[trigger] machine.theoretical_view()[i]).value_view() == 0
                            && machine.theoretical_view()[i].order_view() == program.theoretical@[i]
                },
                None => !program_ok(program),
            },
    {
        let count = program.instructions.len();
        let mut i: usize = 0;
        while i < count
            invariant
                i <= count,
                count == program.instructions@.len(),
                forall|j: int|
                    0 <= j < i ==> instruction_ok(
                        #[trigger] program.instructions@[j],
                        program.theoretical@.len(),
                        program.puzzles@.len(),
                        count as nat,
                    ),
            decreases count - i,
        {
            if !check_instruction(
                &program.instructions[i],
                program.theoretical.len(),
                program.puzzles.len(),
                count,
            ) {
                return None;
            }
            i += 1;
        }
        let mut theoretical_states: Vec<TheoreticalState> = Vec::new();
        let mut t: usize = 0;
        while t < program.theoretical.len()
            invariant
                t <= program.theoretical@.len(),
                theoretical_states@.len() == t,
                forall|j: int| 0 <= j < t ==> #[trigger] program.theoretical@[j] != 0,
                forall|j: int|
                    0 <= j < t ==> (#[trigger] theoretical_states@[j]).value_view() == 0
                        && theoretical_states@[j].order_view() == program.theoretical@[j],
            decreases program.theoretical@.len() - t,
        {
            match TheoreticalState::new(program.theoretical[t]) {
                Some(state) => {
                    theoretical_states.push(state);
                },
                None => {
                    return None;
                },
            }
            t += 1;
        }
        Some(
            Controller {
                program,
                program_counter: 0,
                messages: Vec::new(),
                execution_state: ExecutionState::Running,
                theoretical_states,
            },
        )
    }

    /// The program.
    pub fn program(&self) -> (program: &Program)
        ensures
            *program == self.program_view(),
    {
        &self.program
    }

    /// The place of the next instruction.
    pub fn program_counter(&self) -> (counter: usize)
        ensures
            counter == self.counter(),
    {
        self.program_counter
    }

    /// Whether the machine runs.
    pub fn execution_state(&self) -> (state: ExecutionState)
        ensures
            state == self.state_view(),
    {
        self.execution_state
    }

    /// The messages that the program has printed.
    pub fn messages(&self) -> (messages: &Vec<Vec<u8>>)
        ensures
            messages@ == self.messages_view(),
    {
        &self.messages
    }

    /// A register in theory.
    pub fn theoretical_state(&self, idx: usize) -> (state: &TheoreticalState)
        requires
            idx < self.theoretical_view().len(),
        ensures
            *state == self.theoretical_view()[idx as int],
    {
        &self.theoretical_states[idx]
    }

    /// What the next instruction needs of a puzzle. A machine that stands
    /// still needs nothing.
    pub fn request(&self) -> (request: Request<'_>)
        requires
            self.wf(),
        ensures
            request == self.wanted(),
    {
        match self.execution_state {
            ExecutionState::Running => {},
            _ => {
                return Request::Nothing;
            },
        }
        if self.program_counter >= self.program.instructions.len() {
            return Request::Nothing;
        }
        match &self.program.instructions[self.program_counter] {
            Instruction::SolvedGoto { test: Test::Puzzle { puzzle, facelets }, .. } => Request::FaceletsSolved {
                puzzle: *puzzle,
                facelets,
            },
            Instruction::PerformAlgorithm { puzzle, algorithm } => Request::Compose {
                puzzle: *puzzle,
                algorithm,
            },
            Instruction::Solve { target: Target::Puzzle(puzzle) } => Request::Solve { puzzle: *puzzle },
            Instruction::RepeatUntil { puzzle, facelets, algorithm } => Request::RepeatUntil {
                puzzle: *puzzle,
                facelets,
                algorithm,
            },
            Instruction::Print {
                register: Some(Register::Puzzle { puzzle, generator, facelets }),
                ..
            } => Request::Print { puzzle: *puzzle, facelets, generator },
            Instruction::Halt {
                register: Some(Register::Puzzle { puzzle, generator, facelets }),
                ..
            } => Request::Halt { puzzle: *puzzle, facelets, generator },
            _ => Request::Nothing,
        }
    }

    /// Everything is as it was.
    pub open spec fn unchanged(&self, before: &Controller) -> bool {
        &&& self.same_states(before)
        &&& self.counter() == before.counter()
        &&& self.state_view() == before.state_view()
    }

    /// Everything but the place of the next instruction and whether the
    /// machine runs is as it was.
    pub open spec fn same_states(&self, before: &Controller) -> bool {
        &&& self.program_view() == before.program_view()
        &&& self.messages_view() == before.messages_view()
        &&& self.theoretical_view() == before.theoretical_view()
    }

    /// The registers in theory are as they were, but for the one at `idx`.
    pub open spec fn same_theoretical_but(&self, before: &Controller, idx: int) -> bool {
        &&& self.theoretical_view().len() == before.theoretical_view().len()
        &&& forall|j: int|
            0 <= j < self.theoretical_view().len() && j != idx ==> #[trigger] self.theoretical_view()[j]
                == before.theoretical_view()[j]
        &&& self.theoretical_view()[idx].order_view() == before.theoretical_view()[idx].order_view()
    }

    /// One message more has been printed.
    pub open spec fn printed(&self, before: &Controller, message: Seq<u8>) -> bool {
        &&& self.messages_view().len() == before.messages_view().len() + 1
        &&& self.messages_view().last()@ == message
        &&& forall|j: int|
            0 <= j < before.messages_view().len() ==> #[trigger] self.messages_view()[j]
                == before.messages_view()[j]
    }

    /// What a message instruction prints: its message, with the value of its
    /// register behind it if it has one. The value of a register of a puzzle
    /// is what the puzzle has answered; there is nothing to print if it could
    /// not be decoded.
    pub open spec fn report_of(&self, message: Seq<u8>, register: Option<Register>, answer: Answer) -> Option<
        Seq<u8>,
    > {
        match register {
            None => Some(message),
            Some(Register::Theoretical { idx }) => Some(
                message_with(message, self.theoretical_view()[idx as int].value_view()),
            ),
            Some(Register::Puzzle { .. }) => match answer {
                Answer::Decoded(Some(value)) => Some(message_with(message, value)),
                _ => None,
            },
        }
    }

    /// Whether a test holds, the puzzle having answered.
    pub open spec fn test_holds(&self, test: Test, answer: Answer) -> bool {
        match test {
            Test::Theoretical { idx } => self.theoretical_view()[idx as int].value_view() == 0,
            Test::Puzzle { .. } => answer == Answer::Solved(true),
        }
    }

    /// The machine has come to grief: it stands where it stood, with a message
    /// more.
    pub open spec fn panicked(&self, before: &Controller, action: ActionPerformed) -> bool {
        &&& self.printed(before, panic_message())
        &&& self.counter() == before.counter()
        &&& self.state_view() == ExecutionState::Paused(PausedState::Panicked)
        &&& action == ActionPerformed::Paused
    }

    /// The machine runs on behind the instruction.
    pub open spec fn moved_on(&self, before: &Controller) -> bool {
        &&& self.counter() == before.counter() + 1
        &&& self.state_view() == ExecutionState::Running
    }

    /// Whether the machine `self` is what the instruction and the answer of
    /// the puzzle make of the running machine `before`.
    pub open spec fn is_advance(
        &self,
        before: &Controller,
        instruction: Instruction,
        answer: Answer,
        action: ActionPerformed,
    ) -> bool {
        &&& self.program_view() == before.program_view()
        &&& match instruction {
            Instruction::Goto { instruction_idx } => {
                &&& self.same_states(before)
                &&& self.counter() == instruction_idx
                &&& self.state_view() == ExecutionState::Running
                &&& action == ActionPerformed::Goto
            },
            Instruction::SolvedGoto { test, instruction_idx } => {
                &&& self.same_states(before)
                &&& self.state_view() == ExecutionState::Running
                &&& if before.test_holds(test, answer) {
                    self.counter() == instruction_idx && action == ActionPerformed::SucceededSolvedGoto
                } else {
                    self.counter() == before.counter() + 1 && action == ActionPerformed::FailedSolvedGoto
                }
            },
            Instruction::AddTheoretical { idx, amount } => {
                &&& self.messages_view() == before.messages_view()
                &&& self.same_theoretical_but(before, idx as int)
                &&& self.theoretical_view()[idx as int].value_view() == (
                before.theoretical_view()[idx as int].value_view() + amount) % (
                before.theoretical_view()[idx as int].order_view() as int)
                &&& self.moved_on(before)
                &&& action == ActionPerformed::Added
            },
            Instruction::PerformAlgorithm { .. } => {
                &&& self.same_states(before)
                &&& self.moved_on(before)
                &&& action == ActionPerformed::Added
            },
            Instruction::Solve { target } => {
                &&& self.messages_view() == before.messages_view()
                &&& match target {
                    Target::Theoretical(idx) => {
                        &&& self.same_theoretical_but(before, idx as int)
                        &&& self.theoretical_view()[idx as int].value_view() == 0
                    },
                    Target::Puzzle(_) => self.theoretical_view() == before.theoretical_view(),
                }
                &&& self.moved_on(before)
                &&& action == ActionPerformed::Solved
            },
            Instruction::RepeatUntil { .. } => {
                &&& self.theoretical_view() == before.theoretical_view()
                &&& if answer == Answer::Repeated(true) {
                    &&& self.messages_view() == before.messages_view()
                    &&& self.moved_on(before)
                    &&& action == ActionPerformed::RepeatedUntil
                } else {
                    self.panicked(before, action)
                }
            },
            Instruction::Print { message, register } => {
                &&& self.theoretical_view() == before.theoretical_view()
                &&& match before.report_of(message@, register, answer) {
                    Some(text) => {
                        &&& self.printed(before, text)
                        &&& self.moved_on(before)
                        &&& action == ActionPerformed::Printed
                    },
                    None => self.panicked(before, action),
                }
            },
            Instruction::Halt { message, register } => {
                &&& self.theoretical_view() == before.theoretical_view()
                &&& match before.report_of(message@, register, answer) {
                    Some(text) => {
                        &&& self.printed(before, text)
                        &&& self.counter() == before.counter()
                        &&& self.state_view() == ExecutionState::Paused(PausedState::Halt)
                        &&& action == ActionPerformed::Paused
                    },
                    None => self.panicked(before, action),
                }
            },
            Instruction::Input { message, register, max_input } => {
                &&& self.theoretical_view() == before.theoretical_view()
                &&& self.printed(before, message@)
                &&& self.counter() == before.counter()
                &&& self.state_view() == ExecutionState::Paused(PausedState::Input { max_input })
                &&& action == ActionPerformed::Paused
            },
        }
    }

    fn report(&self, message: &Vec<u8>, register: &Option<Register>, answer: Answer) -> (report: Option<Vec<u8>>)
        requires
            register matches Some(Register::Theoretical { idx }) ==> idx < self.theoretical_view().len(),
        ensures
            match report {
                Some(text) => self.report_of(message@, *register, answer) == Some(text@),
                None => self.report_of(message@, *register, answer) is None,
            },
    {
        match register {
            None => Some(bytes_to_vec(message.as_slice())),
            Some(Register::Theoretical { idx }) => Some(
                with_value(message, self.theoretical_states[*idx].value()),
            ),
            Some(Register::Puzzle { .. }) => match answer {
                Answer::Decoded(Some(value)) => Some(with_value(message, value)),
                _ => None,
            },
        }
    }

    fn fits_request(&self, answer: Answer) -> (fitting: bool)
        requires
            self.wf(),
        ensures
            fitting == fits(self.wanted(), answer),
    {
        match self.request() {
            Request::Nothing | Request::Compose { .. } | Request::Solve { .. } => match answer {
                Answer::Done => true,
                _ => false,
            },
            Request::FaceletsSolved { .. } => match answer {
                Answer::Solved(_) => true,
                _ => false,
            },
            Request::RepeatUntil { .. } => match answer {
                Answer::Repeated(_) => true,
                _ => false,
            },
            Request::Print { .. } | Request::Halt { .. } => match answer {
                Answer::Decoded(_) => true,
                _ => false,
            },
        }
    }

    fn panic(&mut self) -> (action: ActionPerformed)
        requires
            old(self).wf(),
            old(self).state_view() == ExecutionState::Running,
        ensures
            final(self).wf(),
            final(self).program_view() == old(self).program_view(),
            final(self).theoretical_view() == old(self).theoretical_view(),
            final(self).panicked(old(self), action),
    {
        self.messages.push(panic_text());
        self.execution_state = ExecutionState::Paused(PausedState::Panicked);
        ActionPerformed::Paused
    }

    /// Performs the next instruction, the puzzle having answered what the
    /// instruction needed of it.
    ///
    /// A machine that stands still does nothing. A machine behind the last
    /// instruction comes to a halt. An answer of another kind than was asked
    /// for is not taken: the machine stays as it is. Else the instruction is
    /// performed: a jump sets the place of the next instruction, a conditional
    /// jump does so if its register is zero, additions change a register in
    /// theory, messages are printed with the value of their register, and a
    /// register that could not be decoded brings the machine to grief.
    pub fn advance(&mut self, answer: Answer) -> (action: ActionPerformed)
        requires
            old(self).wf(),
        ensures
            final(self).wf(),
            final(self).program_view() == old(self).program_view(),
            old(self).state_view() != ExecutionState::Running ==> action == ActionPerformed::Nothing
                && final(self).unchanged(old(self)),
            old(self).state_view() == ExecutionState::Running && !old(self).at_work() ==> action
                == ActionPerformed::Paused && final(self).same_states(old(self)) && final(self).counter()
                == old(self).counter() && final(self).state_view() == ExecutionState::Paused(
                PausedState::Halt,
            ),
            old(self).at_work() && !fits(old(self).wanted(), answer) ==> action == ActionPerformed::Nothing
                && final(self).unchanged(old(self)),
            old(self).at_work() && fits(old(self).wanted(), answer) ==> final(self).is_advance(
                old(self),
                old(self).instruction(),
                answer,
                action,
            ),
    {
        match self.execution_state {
            ExecutionState::Running => {},
            _ => {
                return ActionPerformed::Nothing;
            },
        }
        let pc = self.program_counter;
        if pc >= self.program.instructions.len() {
            self.execution_state = ExecutionState::Paused(PausedState::Halt);
            return ActionPerformed::Paused;
        }
        if !self.fits_request(answer) {
            return ActionPerformed::Nothing;
        }
        assert(instruction_ok(
            self.program.instructions@[pc as int],
            self.program.theoretical@.len(),
            self.program.puzzles@.len(),
            self.program.instructions@.len(),
        ));
        match &self.program.instructions[pc] {
            Instruction::Goto { instruction_idx } => {
                self.program_counter = *instruction_idx;
                ActionPerformed::Goto
            },
            Instruction::SolvedGoto { test, instruction_idx } => {
                let zero = match test {
                    Test::Theoretical { idx } => self.theoretical_states[*idx].value() == 0,
                    Test::Puzzle { .. } => match answer {
                        Answer::Solved(solved) => solved,
                        _ => false,
                    },
                };
                if zero {
                    self.program_counter = *instruction_idx;
                    ActionPerformed::SucceededSolvedGoto
                } else {
                    self.program_counter = pc + 1;
                    ActionPerformed::FailedSolvedGoto
                }
            },
            Instruction::AddTheoretical { idx, amount } => {
                self.theoretical_states[*idx].add_to(*amount);
                self.program_counter = pc + 1;
                ActionPerformed::Added
            },
            Instruction::PerformAlgorithm { .. } => {
                self.program_counter = pc + 1;
                ActionPerformed::Added
            },
            Instruction::Solve { target } => {
                match target {
                    Target::Theoretical(idx) => {
                        self.theoretical_states[*idx].zero_out();
                    },
                    Target::Puzzle(_) => {},
                }
                self.program_counter = pc + 1;
                ActionPerformed::Solved
            },
            Instruction::RepeatUntil { .. } => {
                match answer {
                    Answer::Repeated(true) => {
                        self.program_counter = pc + 1;
                        ActionPerformed::RepeatedUntil
                    },
                    _ => self.panic(),
                }
            },
            Instruction::Print { message, register } => {
                match self.report(message, register, answer) {
                    Some(text) => {
                        self.messages.push(text);
                        self.program_counter = pc + 1;
                        ActionPerformed::Printed
                    },
                    None => self.panic(),
                }
            },
            Instruction::Halt { message, register } => {
                match self.report(message, register, answer) {
                    Some(text) => {
                        self.messages.push(text);
                        self.execution_state = ExecutionState::Paused(PausedState::Halt);
                        ActionPerformed::Paused
                    },
                    None => self.panic(),
                }
            },
            Instruction::Input { message, register: _, max_input } => {
                self.messages.push(bytes_to_vec(message.as_slice()));
                self.execution_state = ExecutionState::Paused(
                    PausedState::Input { max_input: *max_input },
                );
                ActionPerformed::Paused
            },
        }
    }

    /// Gives the machine the number that it waits for. The number is refused,
    /// and nothing changes, if the machine does not wait for one or if the
    /// number is larger than the largest that the instruction takes. Else the
    /// number is added to the register of the input instruction, and the
    /// machine runs on behind that instruction. What has to be added to a
    /// register of a puzzle is handed out as an algorithm: the generator of
    /// the register, as often as the number says.
    pub fn give_input(&mut self, value: u64) -> (taken: InputTaken)
        requires
            old(self).wf(),
        ensures
            final(self).wf(),
            final(self).program_view() == old(self).program_view(),
            final(self).messages_view() == old(self).messages_view(),
            match old(self).state_view() {
                ExecutionState::Paused(PausedState::Input { max_input }) => (taken is Refused) == (value
                    > max_input),
                _ => taken is Refused,
            },
            taken is Refused ==> final(self).unchanged(old(self)),
            !(taken is Refused) ==> final(self).moved_on(old(self)) && match old(self).instruction() {
                Instruction::Input { register: Register::Theoretical { idx }, .. } => {
                    &&& taken is Theoretical
                    &&& final(self).same_theoretical_but(old(self), idx as int)
                    &&& final(self).theoretical_view()[idx as int].value_view() == (
                    old(self).theoretical_view()[idx as int].value_view() + value) % (
                    old(self).theoretical_view()[idx as int].order_view() as int)
                },
                Instruction::Input { register: Register::Puzzle { puzzle, generator, .. }, .. } => {
                    &&& final(self).theoretical_view() == old(self).theoretical_view()
                    &&& taken matches InputTaken::Puzzle { puzzle: on, algorithm }
                    &&& on == puzzle
                    &&& algorithm.group_view() == generator.group_view()
                    &&& algorithm.moves_view() == repeated_moves(generator.moves_view(), value as nat)
                    &&& forall|i: int|
                        #[trigger] algorithm.permutation_view().apply(i) == powered(
                            generator.permutation_view().mapping_view(),
                            value as int,
                            i,
                        )
                },
                _ => false,
            },
    {
        let max_input = match self.execution_state {
            ExecutionState::Paused(PausedState::Input { max_input }) => max_input,
            _ => {
                return InputTaken::Refused;
            },
        };
        if value > max_input {
            return InputTaken::Refused;
        }
        let pc = self.program_counter;
        let count: usize = self.program.instructions.len();
        assert(pc < count);
        assert(instruction_ok(
            self.program.instructions@[pc as int],
            self.program.theoretical@.len(),
            self.program.puzzles@.len(),
            self.program.instructions@.len(),
        ));
        match &self.program.instructions[pc] {
            Instruction::Input { message: _, register, max_input: _ } => {
                let taken = match register {
                    Register::Theoretical { idx } => {
                        self.theoretical_states[*idx].add_to(value);
                        InputTaken::Theoretical
                    },
                    Register::Puzzle { puzzle, generator, facelets: _ } => {
                        let mut algorithm = generator.clone();
                        algorithm.exponentiate(value as i128);
                        InputTaken::Puzzle { puzzle: *puzzle, algorithm }
                    },
                };
                self.execution_state = ExecutionState::Running;
                self.program_counter = pc + 1;
                taken
            },
            _ => InputTaken::Refused,
        }
    }
}

} // verus!
