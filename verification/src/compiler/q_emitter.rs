//! The listing of a program for one puzzle: its instructions one below the
//! other, each behind its number, with algorithms broken into lines.

use crate::compiler::line_splitting::{alg_text, joined, move_names, stringify_alg, texts};
use crate::cycle_notation::{decimal_digits, push_decimal};
use crate::permutations::{inverted_moves, repeated_moves, Algorithm};
use vstd::prelude::*;
use vstd::string::StringSliceAdditionalSpecFns;

verus! {

/// An instruction as the listing shows it.
#[derive(Debug)]
#[allow(inconsistent_fields)]
pub enum QInstruction {
    Goto { instruction_idx: usize },
    /// Jumps if the pieces are solved.
    SolvedGoto { pieces: Vec<Vec<u8>>, instruction_idx: usize },
    /// Asks for a number up to `max_input`, and performs the algorithm as
    /// often.
    Input { message: Vec<u8>, algorithm: Algorithm, max_input: u64 },
    /// Halts with a message, and with the value of a register if it has one:
    /// the generator of the register, and the pieces by which it is read.
    Halt { message: Vec<u8>, counting: Option<(Algorithm, Vec<Vec<u8>>)> },
    /// Prints a message, with the value of a register if it has one.
    Print { message: Vec<u8>, counting: Option<(Algorithm, Vec<Vec<u8>>)> },
    PerformAlgorithm { algorithm: Algorithm },
    Solve,
    /// Performs the algorithm until the pieces are solved.
    RepeatUntil { pieces: Vec<Vec<u8>>, algorithm: Algorithm },
}

/// A program as the listing shows it: how many theoretical registers it has,
/// the definitions of its puzzles, and its instructions.
#[derive(Debug)]
pub struct QProgram {
    pub theoretical: usize,
    pub puzzles: Vec<Vec<u8>>,
    pub instructions: Vec<QInstruction>,
}

/// Why a program has no listing.
#[derive(Clone, Copy, Debug, PartialEq, Eq)]
pub enum EmitError {
    /// The program has a theoretical register, at this place.
    TheoreticalRegister { index: usize },
    /// The program has more than one puzzle.
    MultiplePuzzles,
}

/// What stands in the way of a listing: every theoretical register, and a
/// second puzzle.
pub open spec fn emit_errors(theoretical: nat, puzzles: nat) -> Seq<EmitError> {
    Seq::new(theoretical, |i: int| EmitError::TheoreticalRegister { index: i as usize }) + if puzzles > 1 {
        seq![EmitError::MultiplePuzzles]
    } else {
        Seq::empty()
    }
}

/// The bytes of a text.
pub open spec fn lit(text: &str) -> Seq<u8> {
    text.spec_bytes()
}

/// So many blanks.
pub open spec fn blanks(count: nat) -> Seq<u8> {
    Seq::new(count, |i: int| 32u8)
}

/// How many digits the numbers of `count` instructions take.
pub open spec fn number_width(count: nat) -> nat {
    decimal_digits(
        if count >= 2 {
            (count - 1) as nat
        } else {
            1
        },
    ).len()
}

/// A number with blanks behind it, up to a width.
pub open spec fn numbered(number: nat, width: nat) -> Seq<u8> {
    let digits = decimal_digits(number);
    if digits.len() < width {
        digits + blanks((width - digits.len()) as nat)
    } else {
        digits
    }
}

/// Names in a line, with a blank between two of them.
pub open spec fn pieces_text(pieces: Seq<Vec<u8>>) -> Seq<u8> {
    joined(texts(pieces), 0, pieces.len() as int)
}

/// The names of the moves that undo an algorithm.
pub open spec fn undoing_names(alg: &Algorithm) -> Seq<Seq<u8>> {
    let generators = alg.group_view().generators_view();
    Seq::new(
        alg.moves_view().len(),
        |i: int| generators[inverted_moves(generators, alg.moves_view())[i] as int].name@,
    )
}

/// A message in quotation marks behind a word, and below it, if a register is
/// read, the algorithm that undoes its generator and the pieces that tell
/// when to stop.
pub open spec fn message_text(
    word: Seq<u8>,
    message: Seq<u8>,
    counting: Option<(Algorithm, Vec<Vec<u8>>)>,
    padding: usize,
) -> Seq<u8> {
    let head = word + lit(" \"") + message + lit("\"");
    match counting {
        None => head,
        Some((algorithm, pieces)) => head + lit("\n") + alg_text(
            undoing_names(&algorithm),
            (padding + word.len() + 1) as usize,
            true,
        ) + lit("\n") + blanks(padding as nat) + blanks(word.len() + 1) + lit("counting-until ") + pieces_text(
            pieces@,
        ),
    }
}

/// An instruction as the listing shows it, behind `padding` letters.
pub open spec fn instruction_text(instruction: QInstruction, padding: usize) -> Seq<u8> {
    match instruction {
        QInstruction::Goto { instruction_idx } => lit("goto ") + decimal_digits(instruction_idx as nat),
        QInstruction::SolvedGoto { pieces, instruction_idx } => lit("solved-goto ") + pieces_text(pieces@)
            + lit(" ") + decimal_digits(instruction_idx as nat),
        QInstruction::Input { message, algorithm, max_input } => lit("input \"") + message@ + lit("\"\n")
            + alg_text(move_names(&algorithm), (padding + 6) as usize, true) + lit("\n") + blanks(
            padding as nat,
        ) + lit("      max-input ") + decimal_digits(max_input as nat),
        QInstruction::Halt { message, counting } => message_text(lit("halt"), message@, counting, padding),
        QInstruction::Print { message, counting } => message_text(lit("print"), message@, counting, padding),
        QInstruction::PerformAlgorithm { algorithm } => alg_text(move_names(&algorithm), padding, false),
        QInstruction::Solve => lit("solve"),
        QInstruction::RepeatUntil { pieces, algorithm } => lit("repeat until ") + pieces_text(pieces@) + lit(
            " solved\n",
        ) + alg_text(move_names(&algorithm), (padding + 7) as usize, true),
    }
}

/// The head of a listing: the puzzle, if there is one.
pub open spec fn listing_head(puzzles: Seq<Vec<u8>>) -> Seq<u8> {
    lit("Puzzles\n") + if puzzles.len() > 0 {
        lit("A: ") + puzzles[0]@ + lit("\n")
    } else {
        Seq::empty()
    } + lit("\n")
}

/// The line of the instruction at a place: its number, a bar, and the
/// instruction.
pub open spec fn listing_line(instructions: Seq<QInstruction>, at: int) -> Seq<u8> {
    let width = number_width(instructions.len());
    numbered(at as nat, width) + lit(" | ") + instruction_text(instructions[at], (width + 3) as usize) + lit(
        "\n",
    )
}

/// The listing up to the instruction at `upto`.
pub open spec fn listing(program: QProgram, upto: int) -> Seq<u8>
    decreases upto,
{
    if upto <= 0 {
        listing_head(program.puzzles@)
    } else {
        listing(program, upto - 1) + listing_line(program.instructions@, upto - 1)
    }
}

/// Ten to a power.
pub open spec fn pow10(power: nat) -> nat
    decreases power,
{
    if power == 0 {
        1
    } else {
        10 * pow10((power - 1) as nat)
    }
}

proof fn lemma_decimal_len(number: nat, places: nat)
    requires
        places >= 1,
        number < pow10(places),
    ensures
        1 <= decimal_digits(number).len() <= places,
    decreases places,
{
    if number >= 10 {
        assert(pow10(1) == 10) by {
            assert(pow10(0) == 1);
        }
        assert(places >= 2);
        assert(number / 10 < pow10((places - 1) as nat));
        lemma_decimal_len(number / 10, (places - 1) as nat);
    }
}

proof fn lemma_machine_number(number: u64)
    ensures
        1 <= decimal_digits(number as nat).len() <= 20,
{
    assert(pow10(0) == 1);
    assert(pow10(1) == 10);
    assert(pow10(2) == 100);
    assert(pow10(3) == 1000);
    assert(pow10(4) == 10000);
    assert(pow10(5) == 100000);
    assert(pow10(6) == 1000000);
    assert(pow10(7) == 10000000);
    assert(pow10(8) == 100000000);
    assert(pow10(9) == 1000000000);
    assert(pow10(10) == 10000000000);
    assert(pow10(11) == 100000000000);
    assert(pow10(12) == 1000000000000);
    assert(pow10(13) == 10000000000000);
    assert(pow10(14) == 100000000000000);
    assert(pow10(15) == 1000000000000000);
    assert(pow10(16) == 10000000000000000);
    assert(pow10(17) == 100000000000000000);
    assert(pow10(18) == 1000000000000000000);
    assert(pow10(19) == 10000000000000000000);
    assert(pow10(20) == 100000000000000000000);
    lemma_decimal_len(number as nat, 20);
}

fn push_bytes(out: &mut Vec<u8>, bytes: &[u8])
    ensures
        final(out)@ == old(out)@ + bytes@,
{
    let ghost start = out@;
    let mut i: usize = 0;
    assert(out@ =~= start + bytes@.take(0));
    while i < bytes.len()
        invariant
            i <= bytes@.len(),
            out@ == start + bytes@.take(i as int),
        decreases bytes@.len() - i,
    {
        out.push(bytes[i]);
        assert(out@ =~= start + bytes@.take(i + 1));
        i += 1;
    }
    assert(bytes@.take(bytes@.len() as int) =~= bytes@);
}

fn push_text(out: &mut Vec<u8>, text: &str)
    ensures
        final(out)@ == old(out)@ + lit(text),
{
    push_bytes(out, text.as_bytes());
}

fn push_blanks(out: &mut Vec<u8>, count: usize)
    ensures
        final(out)@ == old(out)@ + blanks(count as nat),
{
    let ghost start = out@;
    let mut i: usize = 0;
    assert(out@ =~= start + blanks(0));
    while i < count
        invariant
            i <= count,
            out@ == start + blanks(i as nat),
        decreases count - i,
    {
        out.push(32);
        assert(out@ =~= start + blanks((i + 1) as nat));
        i += 1;
    }
}

fn push_pieces(out: &mut Vec<u8>, pieces: &Vec<Vec<u8>>)
    ensures
        final(out)@ == old(out)@ + pieces_text(pieces@),
{
    let ghost start = out@;
    let mut at: usize = 0;
    assert(out@ =~= start + joined(texts(pieces@), 0, 0));
    while at < pieces.len()
        invariant
            at <= pieces@.len(),
            out@ == start + joined(texts(pieces@), 0, at as int),
        decreases pieces@.len() - at,
    {
        if at > 0 {
            out.push(32);
        }
        let ghost head = out@;
        push_bytes(out, pieces[at].as_slice());
        assert(out@ =~= start + joined(texts(pieces@), 0, at + 1));
        at += 1;
    }
}

fn push_message(
    out: &mut Vec<u8>,
    word: &str,
    message: &Vec<u8>,
    counting: &Option<(Algorithm, Vec<Vec<u8>>)>,
    padding: usize,
)
    requires
        padding <= 23,
        lit(word).len() <= 5,
    ensures
        final(out)@ == old(out)@ + message_text(lit(word), message@, *counting, padding),
{
    let ghost start = out@;
    push_text(out, word);
    push_text(out, " \"");
    push_bytes(out, message.as_slice());
    push_text(out, "\"");
    match counting {
        None => {
            assert(out@ =~= start + message_text(lit(word), message@, *counting, padding));
        },
        Some((algorithm, pieces)) => {
            let indent: usize = word.as_bytes().len() + 1;
            let mut undoing = algorithm.clone();
            undoing.exponentiate(-1);
            proof {
                let generators = algorithm.group_view().generators_view();
                let undone = inverted_moves(generators, algorithm.moves_view());
                assert(repeated_moves(undone, 1) =~= undone) by {
                    assert(repeated_moves(undone, 0) =~= Seq::<usize>::empty());
                }
                assert(move_names(&undoing) =~= undoing_names(algorithm));
            }
            push_text(out, "\n");
            let lines = stringify_alg(&undoing, padding + indent, true);
            push_bytes(out, lines.as_slice());
            push_text(out, "\n");
            push_blanks(out, padding);
            push_blanks(out, indent);
            push_text(out, "counting-until ");
            push_pieces(out, pieces);
            assert(out@ =~= start + message_text(lit(word), message@, *counting, padding));
        },
    }
}

fn push_instruction(out: &mut Vec<u8>, instruction: &QInstruction, padding: usize)
    requires
        padding <= 23,
    ensures
        final(out)@ == old(out)@ + instruction_text(*instruction, padding),
{
    let ghost start = out@;
    match instruction {
        QInstruction::Goto { instruction_idx } => {
            push_text(out, "goto ");
            push_decimal(out, *instruction_idx as u64);
        },
        QInstruction::SolvedGoto { pieces, instruction_idx } => {
            push_text(out, "solved-goto ");
            push_pieces(out, pieces);
            push_text(out, " ");
            push_decimal(out, *instruction_idx as u64);
        },
        QInstruction::Input { message, algorithm, max_input } => {
            push_text(out, "input \"");
            push_bytes(out, message.as_slice());
            push_text(out, "\"\n");
            let lines = stringify_alg(algorithm, padding + 6, true);
            push_bytes(out, lines.as_slice());
            push_text(out, "\n");
            push_blanks(out, padding);
            push_text(out, "      max-input ");
            push_decimal(out, *max_input);
        },
        QInstruction::Halt { message, counting } => {
            proof {
                reveal_strlit("halt");
                vstd::string::is_ascii_spec_bytes("halt");
            }
            push_message(out, "halt", message, counting, padding);
        },
        QInstruction::Print { message, counting } => {
            proof {
                reveal_strlit("print");
                vstd::string::is_ascii_spec_bytes("print");
            }
            push_message(out, "print", message, counting, padding);
        },
        QInstruction::PerformAlgorithm { algorithm } => {
            let lines = stringify_alg(algorithm, padding, false);
            push_bytes(out, lines.as_slice());
        },
        QInstruction::Solve => {
            push_text(out, "solve");
        },
        QInstruction::RepeatUntil { pieces, algorithm } => {
            push_text(out, "repeat until ");
            push_pieces(out, pieces);
            push_text(out, " solved\n");
            let lines = stringify_alg(algorithm, padding + 7, true);
            push_bytes(out, lines.as_slice());
        },
    }
    assert(out@ =~= start + instruction_text(*instruction, padding));
}

/// The places of the lines of the instructions in a listing: where each
/// begins and where it ends.
pub open spec fn line_spans(program: QProgram) -> Seq<(usize, usize)> {
    Seq::new(
        program.instructions@.len(),
        |i: int| (listing(program, i).len() as usize, listing(program, i + 1).len() as usize),
    )
}

/// The listing of a program, with the places of the lines of its instructions.
///
/// A program with a theoretical register or with more than one puzzle has no
/// listing. The listing names the puzzle and shows the instructions one below
/// the other, each behind its number and a bar.
pub fn emit_q(program: &QProgram) -> (emitted: Result<(Vec<u8>, Vec<(usize, usize)>), Vec<EmitError>>)
    ensures
        match emitted {
            Ok((text, spans)) => {
                &&& program.theoretical == 0
                &&& program.puzzles@.len() <= 1
                &&& text@ == listing(*program, program.instructions@.len() as int)
                &&& spans@ == line_spans(*program)
            },
            Err(errors) => {
                &&& program.theoretical > 0 || program.puzzles@.len() > 1
                &&& errors@ == emit_errors(program.theoretical as nat, program.puzzles@.len())
            },
        },
{
    let mut errors: Vec<EmitError> = Vec::new();
    let mut t: usize = 0;
    while t < program.theoretical
        invariant
            t <= program.theoretical,
            errors@ == Seq::new(t as nat, |i: int| EmitError::TheoreticalRegister { index: i as usize }),
        decreases program.theoretical - t,
    {
        errors.push(EmitError::TheoreticalRegister { index: t });
        assert(errors@ =~= Seq::new(
            (t + 1) as nat,
            |i: int| EmitError::TheoreticalRegister { index: i as usize },
        ));
        t += 1;
    }
    if program.puzzles.len() > 1 {
        errors.push(EmitError::MultiplePuzzles);
    }
    assert(errors@ =~= emit_errors(program.theoretical as nat, program.puzzles@.len()));
    if errors.len() > 0 {
        return Err(errors);
    }
    let mut out: Vec<u8> = Vec::new();
    push_text(&mut out, "Puzzles\n");
    if program.puzzles.len() > 0 {
        push_text(&mut out, "A: ");
        push_bytes(&mut out, program.puzzles[0].as_slice());
        push_text(&mut out, "\n");
    }
    push_text(&mut out, "\n");
    assert(out@ =~= listing_head(program.puzzles@));
    let count: usize = program.instructions.len();
    let last: u64 = if count >= 2 {
        (count - 1) as u64
    } else {
        1
    };
    let mut number: Vec<u8> = Vec::new();
    push_decimal(&mut number, last);
    let digits: usize = number.len();
    proof {
        lemma_machine_number(last);
        assert(digits == number_width(count as nat));
    }
    let mut spans: Vec<(usize, usize)> = Vec::new();
    let mut at: usize = 0;
    while at < count
        invariant
            at <= count,
            count == program.instructions@.len(),
            digits == number_width(count as nat),
            digits <= 20,
            out@ == listing(*program, at as int),
            spans@.len() == at,
            forall|i: int|
                0 <= i < at ==> #[trigger] spans@[i] == (
                    listing(*program, i).len() as usize,
                    listing(*program, i + 1).len() as usize,
                ),
        decreases count - at,
    {
        let start: usize = out.len();
        let mut number: Vec<u8> = Vec::new();
        push_decimal(&mut number, at as u64);
        let ghost head = out@;
        let used: usize = number.len();
        push_bytes(&mut out, number.as_slice());
        if used < digits {
            push_blanks(&mut out, digits - used);
        }
        assert(out@ =~= head + numbered(at as nat, digits as nat));
        push_text(&mut out, " | ");
        push_instruction(&mut out, &program.instructions[at], digits + 3);
        push_text(&mut out, "\n");
        assert(out@ =~= head + listing_line(program.instructions@, at as int));
        let end: usize = out.len();
        spans.push((start, end));
        at += 1;
    }
    assert(spans@ =~= line_spans(*program));
    Ok((out, spans))
}

} // verus!
