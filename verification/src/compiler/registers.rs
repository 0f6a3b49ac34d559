//! The registers that a program declares, and references to them.

use crate::architectures::Architecture;
use crate::names::{Interner, Symbol};
use crate::span::{Span, WithSpan};
use crate::compiler::syntax::RegisterReference;
use std::sync::Arc;
use vstd::prelude::*;

verus! {

/// One architecture of a puzzle with the names of its registers.
#[derive(Debug)]
pub struct ArchitectureDecl {
    pub names: Vec<WithSpan<Symbol>>,
    pub architecture: WithSpan<Arc<Architecture>>,
    /// Where the puzzle itself is defined.
    pub definition: Span,
}

/// A declared puzzle: a register that exists in theory only, with its order,
/// or a real puzzle with the registers of its architectures.
#[derive(Debug)]
pub enum Puzzle {
    Theoretical { name: WithSpan<Symbol>, order: WithSpan<u64> },
    Real { architectures: Vec<ArchitectureDecl> },
}

/// The declaration of all registers of a program.
#[derive(Debug)]
pub struct RegistersDecl {
    pub puzzles: Vec<Puzzle>,
}

/// Why a number could not be read.
#[derive(Clone, Copy, Debug, PartialEq, Eq, Structural, Hash)]
pub enum ParseIntError {
    /// There is no digit.
    Empty,
    /// A byte is not a decimal digit.
    InvalidDigit,
    /// The number does not fit.
    Overflow,
}

/// The place of the last `byte` in `text`, if it holds one.
pub open spec fn last_index_of(text: Seq<u8>, byte: u8) -> Option<int>
    decreases text.len(),
{
    if text.len() == 0 {
        None
    } else if text.last() == byte {
        Some(text.len() - 1)
    } else {
        last_index_of(text.drop_last(), byte)
    }
}

/// Whether a byte is a decimal digit.
pub open spec fn is_digit(byte: u8) -> bool {
    48 <= byte <= 57
}

/// The number that a string of decimal digits stands for.
pub open spec fn decimal_value(digits: Seq<u8>) -> nat
    decreases digits.len(),
{
    if digits.len() == 0 {
        0
    } else {
        decimal_value(digits.drop_last()) * 10 + (digits.last() - 48) as nat
    }
}

/// What reading `text` as a number gives.
pub open spec fn parse_decimal(text: Seq<u8>) -> Result<u64, ParseIntError> {
    if text.len() == 0 {
        Err(ParseIntError::Empty)
    } else if exists|i: int| 0 <= i < text.len() && !is_digit(#[trigger] text[i]) {
        Err(ParseIntError::InvalidDigit)
    } else if decimal_value(text) > u64::MAX {
        Err(ParseIntError::Overflow)
    } else {
        Ok(decimal_value(text) as u64)
    }
}

proof fn lemma_decimal_value_monotone(digits: Seq<u8>, upto: int)
    requires
        0 <= upto <= digits.len(),
        forall|i: int| 0 <= i < digits.len() ==> is_digit(#[trigger] digits[i]),
    ensures
        decimal_value(digits.take(upto)) <= decimal_value(digits),
    decreases digits.len() - upto,
{
    if upto < digits.len() {
        lemma_decimal_value_monotone(digits, upto + 1);
        assert(digits.take(upto + 1).drop_last() =~= digits.take(upto));
    } else {
        assert(digits.take(upto) =~= digits);
    }
}

/// Reads a number in decimal digits.
pub fn parse_u64(text: &[u8]) -> (number: Result<u64, ParseIntError>)
    ensures
        number == parse_decimal(text@),
{
    if text.len() == 0 {
        return Err(ParseIntError::Empty);
    }
    let mut i: usize = 0;
    while i < text.len()
        invariant
            i <= text@.len(),
            forall|j: int| 0 <= j < i ==> is_digit(#[trigger] text@[j]),
        decreases text@.len() - i,
    {
        if text[i] < 48 || text[i] > 57 {
            return Err(ParseIntError::InvalidDigit);
        }
        i += 1;
    }
    let mut value: u64 = 0;
    let mut k: usize = 0;
    while k < text.len()
        invariant
            k <= text@.len(),
            forall|j: int| 0 <= j < text@.len() ==> is_digit(#[trigger] text@[j]),
            value == decimal_value(text@.take(k as int)),
        decreases text@.len() - k,
    {
        let digit: u64 = (text[k] - 48) as u64;
        proof {
            assert(text@.take(k + 1).drop_last() =~= text@.take(k as int));
            lemma_decimal_value_monotone(text@, k + 1);
        }
        if value > (u64::MAX - digit) / 10 {
            assert(decimal_value(text@.take(k + 1)) > u64::MAX);
            return Err(ParseIntError::Overflow);
        }
        value = value * 10 + digit;
        k += 1;
    }
    assert(text@.take(text@.len() as int) =~= text@);
    Ok(value)
}

/// The place of the last `byte` in `text`.
pub fn rfind_byte(text: &[u8], byte: u8) -> (found: Option<usize>)
    ensures
        match found {
            Some(index) => last_index_of(text@, byte) == Some(index as int) && index < text@.len(),
            None => last_index_of(text@, byte) is None,
        },
{
    let mut i: usize = text.len();
    assert(text@.take(i as int) =~= text@);
    while i > 0
        invariant
            i <= text@.len(),
            last_index_of(text@, byte) == last_index_of(text@.take(i as int), byte),
        decreases i,
    {
        if text[i - 1] == byte {
            return Some(i - 1);
        }
        assert(text@.take(i as int).drop_last() =~= text@.take(i - 1));
        i -= 1;
    }
    None
}

/// The bytes of `text` from `from` up to `to`.
pub fn sub_bytes(text: &[u8], from: usize, to: usize) -> (part: Vec<u8>)
    requires
        from <= to <= text@.len(),
    ensures
        part@ == text@.subrange(from as int, to as int),
{
    let mut part: Vec<u8> = Vec::new();
    let mut i: usize = from;
    while i < to
        invariant
            from <= i <= to <= text@.len(),
            part@ == text@.subrange(from as int, i as int),
        decreases to - i,
    {
        part.push(text[i]);
        assert(text@.subrange(from as int, i + 1) =~= text@.subrange(from as int, i as int).push(
            text@[i as int],
        ));
        i += 1;
    }
    part
}

/// What `parse` makes of the text of a register's name: the name before the
/// last `%` and the number behind it, or the whole name where there is no `%`.
pub open spec fn split_modulus(text: Seq<u8>) -> Result<(Seq<u8>, Option<u64>), ParseIntError> {
    match last_index_of(text, 37u8) {
        Some(index) => match parse_decimal(text.skip(index + 1)) {
            Ok(modulus) => Ok((text.take(index), Some(modulus))),
            Err(error) => Err(error),
        },
        None => Ok((text, None)),
    }
}

/// The reference that `parse` reads from a name, and the table of names after
/// it: the name before the `%` enters the table.
pub open spec fn parsed_reference(names: Seq<Seq<u8>>, name: WithSpan<Symbol>) -> (
    Result<RegisterReference, ParseIntError>,
    Seq<Seq<u8>>,
) {
    match split_modulus(names[name.value.0 as int]) {
        Err(error) => (Err(error), names),
        Ok((prefix, modulus)) => match modulus {
            None => (Ok(RegisterReference { reg_name: name, modulus: None }), names),
            Some(number) => (
                Ok(
                    RegisterReference {
                        reg_name: WithSpan {
                            value: Interner::handle_for(names, prefix),
                            span: name.span,
                        },
                        modulus: Some(number),
                    },
                ),
                Interner::with_name(names, prefix),
            ),
        },
    }
}

impl RegisterReference {
    /// Splits a modulus off the name, if it has one behind a `%`: returns the
    /// length of the name and the modulus.
    pub fn try_parse_mod(name: &[u8]) -> (split: Option<Result<(usize, u64), ParseIntError>>)
        ensures
            match split {
                Some(Ok((len, modulus))) => split_modulus(name@) == Ok::<_, ParseIntError>(
                    (name@.take(len as int), Some(modulus)),
                ) && last_index_of(name@, 37u8) == Some(len as int) && len < name@.len(),
                Some(Err(error)) => split_modulus(name@) == Err::<(Seq<u8>, Option<u64>), _>(error),
                None => split_modulus(name@) == Ok::<_, ParseIntError>((name@, None::<u64>)),
            },
    {
        match rfind_byte(name, 37) {
            None => None,
            Some(index) => {
                let len = name.len();
                let digits = sub_bytes(name, index + 1, len);
                assert(digits@ =~= name@.skip(index + 1));
                match parse_u64(digits.as_slice()) {
                    Ok(modulus) => Some(Ok((index, modulus))),
                    Err(error) => Some(Err(error)),
                }
            },
        }
    }

    /// Reads a reference to a register from its name: `A` is the register `A`,
    /// `A%6` is the register `A` modulo 6.
    pub fn parse(name: WithSpan<Symbol>, names: &mut Interner) -> (reference: Result<
        RegisterReference,
        ParseIntError,
    >)
        requires
            old(names).wf(),
            old(names).knows(name.value),
        ensures
            final(names).wf(),
            forall|known: Symbol|
                old(names).knows(known) ==> final(names).knows(known) && final(names).text_of(known)
                    == old(names).text_of(known),
            (reference, final(names)@) == parsed_reference(old(names)@, name),
            reference matches Ok(register) ==> final(names).knows(register.reg_name.value),
    {
        let text = names.text(name.value).clone();
        match RegisterReference::try_parse_mod(text.as_slice()) {
            Some(Ok((len, modulus))) => {
                let prefix = sub_bytes(text.as_slice(), 0, len);
                assert(prefix@ =~= text@.take(len as int));
                let reg_name = names.intern(prefix.as_slice());
                Ok(
                    RegisterReference {
                        reg_name: WithSpan { value: reg_name, span: name.span },
                        modulus: Some(modulus),
                    },
                )
            },
            Some(Err(error)) => Err(error),
            None => Ok(RegisterReference { reg_name: name, modulus: None }),
        }
    }
}

/// Whether one of the names is `name`.
pub open spec fn names_contain(names: Seq<WithSpan<Symbol>>, name: Symbol) -> bool {
    exists|j: int| 0 <= j < names.len() && (#[trigger] names[j]).value == name
}

/// Whether the puzzle has a register of that name.
pub open spec fn puzzle_has_register(puzzle: Puzzle, name: Symbol) -> bool {
    match puzzle {
        Puzzle::Theoretical { name: found, order: _ } => found.value == name,
        Puzzle::Real { architectures } => exists|i: int|
            0 <= i < architectures@.len() && names_contain(
                (#[trigger] architectures@[i]).names@,
                name,
            ),
    }
}

/// The first puzzle of the list that has a register of that name.
pub open spec fn find_register(puzzles: Seq<Puzzle>, name: Symbol) -> Option<int> {
    if exists|i: int| 0 <= i < puzzles.len() && puzzle_has_register(#[trigger] puzzles[i], name) {
        Some(
            choose|i: int|
                {
                    &&& 0 <= i < puzzles.len()
                    &&& puzzle_has_register(#[trigger] puzzles[i], name)
                    &&& forall|j: int| 0 <= j < i ==> !puzzle_has_register(#[trigger] puzzles[j], name)
                },
        )
    } else {
        None
    }
}

fn names_contain_exec(names: &Vec<WithSpan<Symbol>>, name: Symbol) -> (has: bool)
    ensures
        has == names_contain(names@, name),
{
    let mut j: usize = 0;
    while j < names.len()
        invariant
            j <= names@.len(),
            forall|b: int| 0 <= b < j ==> (#[trigger] names@[b]).value != name,
        decreases names@.len() - j,
    {
        if names[j].value.0 == name.0 {
            return true;
        }
        j += 1;
    }
    false
}

fn architectures_contain(architectures: &Vec<ArchitectureDecl>, name: Symbol) -> (has: bool)
    ensures
        has == exists|i: int|
            0 <= i < architectures@.len() && names_contain(
                (#[trigger] architectures@[i]).names@,
                name,
            ),
{
    let mut i: usize = 0;
    while i < architectures.len()
        invariant
            i <= architectures@.len(),
            forall|a: int| 0 <= a < i ==> !names_contain((#[trigger] architectures@[a]).names@, name),
        decreases architectures@.len() - i,
    {
        if names_contain_exec(&architectures[i].names, name) {
            return true;
        }
        i += 1;
    }
    false
}

fn puzzle_has_register_exec(puzzle: &Puzzle, name: Symbol) -> (has: bool)
    ensures
        has == puzzle_has_register(*puzzle, name),
{
    match puzzle {
        Puzzle::Theoretical { name: found, order: _ } => found.value.0 == name.0,
        Puzzle::Real { architectures } => architectures_contain(architectures, name),
    }
}

impl RegistersDecl {
    /// The puzzle that holds the register of a reference, with the reference:
    /// the first puzzle that has a register of that name.
    pub fn get_register(&self, reference: &RegisterReference) -> (found: Option<
        (RegisterReference, &Puzzle),
    >)
        ensures
            match found {
                Some((register, puzzle)) => {
                    &&& register == *reference
                    &&& find_register(self.puzzles@, reference.reg_name.value) matches Some(index)
                    &&& 0 <= index < self.puzzles@.len()
                    &&& *puzzle == self.puzzles@[index]
                },
                None => find_register(self.puzzles@, reference.reg_name.value) is None,
            },
    {
        let name = reference.reg_name.value;
        let mut i: usize = 0;
        while i < self.puzzles.len()
            invariant
                i <= self.puzzles@.len(),
                name == reference.reg_name.value,
                forall|j: int| 0 <= j < i ==> !puzzle_has_register(#[trigger] self.puzzles@[j], name),
            decreases self.puzzles@.len() - i,
        {
            if puzzle_has_register_exec(&self.puzzles[i], name) {
                proof {
                    let index = find_register(self.puzzles@, name).unwrap();
                    assert(puzzle_has_register(self.puzzles@[i as int], name));
                    assert(index == i) by {
                        if index < i {
                            assert(!puzzle_has_register(self.puzzles@[index], name));
                        }
                        if index > i {
                            assert(!puzzle_has_register(self.puzzles@[i as int], name));
                        }
                    }
                }
                return Some((*reference, &self.puzzles[i]));
            }
            i += 1;
        }
        None
    }
}

} // verus!
